use ansi_term::{Colour, Style};
use s3wf2::console::ConsoleEmitter;
use s3wf2::document::{Element, ElementNode, LineType};
use s3wf2::emitter::Emit;
use s3wf2::parser::Parser;

fn paint(style: Style, text: &str) -> String {
    style.paint(text).to_string()
}

#[test]
fn paragraph_is_white_text_then_blank_line() {
    let document = Parser::new().parse("hello").unwrap();
    let out = ConsoleEmitter::new().emit(&document);
    assert_eq!(out, paint(Style::from(Colour::White), "hello") + "\n\n");
}

#[test]
fn section_is_bracketed_in_yellow() {
    let document = Parser::new().parse("/sec T").unwrap();
    let out = ConsoleEmitter::new().emit(&document);
    let y = Style::from(Colour::Yellow);
    assert_eq!(
        out,
        paint(y, "###### ") + &paint(y, "T") + &paint(y, " ######") + "\n\n"
    );
}

#[test]
fn speech_line_uses_palette_and_styles() {
    let document = Parser::new()
        .parse(":character male kb K\n@kb hi [b x]")
        .unwrap();
    let out = ConsoleEmitter::new().emit(&document);
    let c = Style::from(Colour::Fixed(80));
    assert_eq!(
        out,
        paint(c, "K") + &paint(c, "hi ") + &paint(c.bold(), "x") + "\n" + "\n"
    );
}

#[test]
fn custom_color_expands_short_codes() {
    let document = Parser::new()
        .parse(":character f00 r R\n:character 00ff80 g G\n:linename hidden\n@r a\n@g b")
        .unwrap();
    let out = ConsoleEmitter::new().emit(&document);
    assert_eq!(
        out,
        paint(Style::from(Colour::RGB(255, 0, 0)), "a")
            + "\n"
            + &paint(Style::from(Colour::RGB(0, 255, 128)), "b")
            + "\n\n"
    );
}

#[test]
fn rule_quote_and_list() {
    let document = Parser::new()
        .parse("/hori\n/quote q\n/list [item a]")
        .unwrap();
    let mut emitter = ConsoleEmitter::new();
    let out = Emit::emit(&mut emitter, &document);
    let w = Style::from(Colour::White);
    let g = Style::from(Colour::RGB(127, 127, 127));
    let expected = "-".repeat(80)
        + "\n\n"
        + &paint(g, "q")
        + "\n\n"
        + &paint(w, "・")
        + &paint(w, "a")
        + "\n\n";
    assert_eq!(out, expected);
}

#[test]
fn undefined_speaker_is_grey_and_named() {
    let mut document = Parser::new().parse("[ruby A{a}] [m c]").unwrap();
    document.blocks[0].children.insert(
        0,
        ElementNode::Surrounded {
            kind: Element::Line("nobody".to_string(), LineType::Inline),
            parameters: vec![],
            children: vec![ElementNode::Text("x".to_string())],
        },
    );
    document.blocks[0].children.insert(1, ElementNode::Text(" ".to_string()));
    let out = ConsoleEmitter::new().emit(&document);
    let w = Style::from(Colour::White);
    assert_eq!(
        out,
        paint(Style::from(Colour::Fixed(249)), "x")
            + &paint(w, " ")
            + &paint(w, "A")
            + &paint(w, "(")
            + &paint(w, "a")
            + &paint(w, ")")
            + &paint(w, " ")
            + &paint(w, "c")
            + "\n\n"
    );
}
