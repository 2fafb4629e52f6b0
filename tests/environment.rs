use s3wf2::error::{ErrorKind, SemanticErrorKind};
use s3wf2::foreign::{Environment, Status};
use s3wf2::html::HtmlEmitterError;
use s3wf2::parser::Parser;

#[test]
fn environment_holds_document() {
    let mut env = Environment::new();
    assert_eq!(env.document_string(), Err(Status::Error));
    assert_eq!(env.parse("[b x]"), Status::Success);
    assert_eq!(
        env.document_string(),
        Ok("<style>\n</style>\n<p>\n<strong>x</strong>\n</p>\n".to_string())
    );
    assert_eq!(env.next_error(), Err(Status::NoMoreError));
}

#[test]
fn environment_walks_errors() {
    let mut env = Environment::new();
    assert_eq!(env.parse("[b x\nok\n:nope"), Status::ParseError);
    assert_eq!(env.document_string(), Err(Status::Error));
    assert_eq!(
        env.next_error(),
        Ok("Error at line 1: Too many tag opening '[' appear".to_string())
    );
    assert_eq!(
        env.next_error(),
        Ok("Error at line 3: Unknown command: nope".to_string())
    );
    assert_eq!(env.next_error(), Err(Status::NoMoreError));
    assert_eq!(env.reset_error(), Status::Success);
    assert_eq!(
        env.next_error(),
        Ok("Error at line 1: Too many tag opening '[' appear".to_string())
    );
}

#[test]
fn environment_reports_render_failure() {
    let mut env = Environment::new();
    assert_eq!(env.parse("[link x]"), Status::Success);
    assert_eq!(env.document_string(), Err(Status::Error));
}

#[test]
fn messages_of_errors() {
    assert_eq!(
        ErrorKind::NotEnoughParameters { given: 2, needed: 3 }.message(),
        "Not enough parameters (2 given, 3 needed)"
    );
    assert_eq!(
        ErrorKind::Semantic(SemanticErrorKind::InvalidParameter("x".to_string())).message(),
        "Semantic error (Invalid parameter (x))"
    );
    assert_eq!(
        SemanticErrorKind::DuplicateCharacter("a".to_string()).message(),
        "Duplicate character ID: a"
    );
    assert_eq!(SemanticErrorKind::Nonsurrounding.message(), "Non-surrounding block detected");
    assert_eq!(ErrorKind::UnknownCommand("q".to_string()).message(), "Unknown command: q");
    assert_eq!(
        HtmlEmitterError::UndefinedCharacter("g".to_string()).message(),
        "Undefined character: g"
    );
    let errors = Parser::new().parse("\n\n\n\n\n\n\n\n\n\n\n[x y]").unwrap_err();
    assert_eq!(errors[0].message(), "Error at line 12: Unknown element: x");
}

#[test]
fn document_dump() {
    let document = Parser::new()
        .parse(":character mob m M\n:character #abc c C\n[b hi] [@m yo]\n/sec S")
        .unwrap();
    assert_eq!(
        document.describe(),
        "Document {\n  Characters [\"c\" => C (Custom, #abc), \"m\" => M (Mob, #1), ]\n  \
         Paragraph [[Bold \"hi\", ], \" \", [Line(\"m\", Inline) \"yo\", ], ]\n  Section [\"S\", ]\n}\n"
    );
}
