//! The inline tag matcher: turns one line into a sequence of element nodes with an explicit stack
//! of open nodes.
use vstd::prelude::*;

use crate::document::{
    grows, CharacterSet, RegistryModel, lemma_nodes_view_push, lemma_surrounded_view, nodes_view, node_view, Element, ElementModel,
    ElementNode, LineType, NodeModel,
};
use crate::error::{ErrorKind, ErrorKindModel, SemanticErrorKind, SemanticModel};
use crate::text::{
    find_space_end, find_word_end, is_space, is_space_spec, is_text, lemma_space_end_bounds,
    lemma_word_end_bounds, slice_of, space_end, string_of, word_end,
};

verus! {

/// A structural token of an inline line.
pub enum TokenModel {
    /// `[name` followed by `[`, `]`, `{` (`brace` false, scanning resumes at that character),
    /// by `}` (`brace` true), or by blanks (scanning resumes after them). The name, `@` included,
    /// runs from the character after `[` to `to`.
    Open { to: int, brace: bool },
    /// `]`
    Close,
    /// `{`
    OpenParam,
    /// `}`
    CloseParam,
}

/// The token that starts at `i`, with the position where scanning resumes after it.
pub open spec fn token_at(l: Seq<char>, i: int) -> Option<(TokenModel, int)> {
    if !(0 <= i < l.len()) {
        None
    } else if l[i] == '[' {
        let s = if i + 1 < l.len() && l[i + 1] == '@' { i + 2 } else { i + 1 };
        let e = word_end(l, s);
        if e == s || e >= l.len() {
            None
        } else if l[e] == '[' || l[e] == ']' || l[e] == '{' {
            Some((TokenModel::Open { to: e, brace: false }, e))
        } else if l[e] == '}' {
            Some((TokenModel::Open { to: e, brace: true }, e + 1))
        } else if is_space_spec(l[e]) {
            Some((TokenModel::Open { to: e, brace: false }, space_end(l, e)))
        } else {
            None
        }
    } else if l[i] == ']' {
        Some((TokenModel::Close, i + 1))
    } else if l[i] == '{' {
        Some((TokenModel::OpenParam, i + 1))
    } else if l[i] == '}' {
        Some((TokenModel::CloseParam, i + 1))
    } else {
        None
    }
}

/// The position of the first token at or after `p`.
pub open spec fn find_token(l: Seq<char>, p: int) -> Option<int>
    decreases l.len() - p,
{
    if p < 0 || p >= l.len() {
        None
    } else if token_at(l, p) is Some {
        Some(p)
    } else {
        find_token(l, p + 1)
    }
}

/// The element kind named by a tag.
pub open spec fn element_of(n: Seq<char>) -> Option<ElementModel> {
    if n == "b"@ {
        Some(ElementModel::Bold)
    } else if n == "i"@ {
        Some(ElementModel::Italic)
    } else if n == "ul"@ {
        Some(ElementModel::Underlined)
    } else if n == "st"@ {
        Some(ElementModel::Deleted)
    } else if n == "dt"@ {
        Some(ElementModel::Dotted)
    } else if n == "m"@ {
        Some(ElementModel::Monospaced)
    } else if n == "br"@ {
        Some(ElementModel::Newline)
    } else if n == "link"@ {
        Some(ElementModel::Link)
    } else if n == "ruby"@ {
        Some(ElementModel::Ruby)
    } else if n == "item"@ {
        Some(ElementModel::Item)
    } else {
        None
    }
}

/// The state of the matcher: the finished nodes, and the stack of nodes still open.
pub struct InlineModel {
    pub done: Seq<NodeModel>,
    pub stack: Seq<NodeModel>,
}

pub open spec fn empty_surrounded(kind: ElementModel) -> NodeModel {
    NodeModel::Surrounded { kind, parameters: Seq::empty(), children: Seq::empty() }
}

pub open spec fn with_child(n: NodeModel, c: NodeModel) -> NodeModel {
    match n {
        NodeModel::Surrounded { kind, parameters, children } => NodeModel::Surrounded {
            kind,
            parameters,
            children: children.push(c),
        },
        NodeModel::Text(_) => n,
    }
}

pub open spec fn with_parameter(n: NodeModel, c: NodeModel) -> NodeModel {
    match n {
        NodeModel::Surrounded { kind, parameters, children } => NodeModel::Surrounded {
            kind,
            parameters: parameters.push(c),
            children,
        },
        NodeModel::Text(_) => n,
    }
}

pub open spec fn is_parameter(n: NodeModel) -> bool {
    n matches NodeModel::Surrounded { kind: ElementModel::Parameter, .. }
}

/// A finished node goes to the innermost open node, or to the output when none is open.
pub open spec fn attach(st: InlineModel, n: NodeModel) -> InlineModel {
    if st.stack.len() == 0 {
        InlineModel { done: st.done.push(n), ..st }
    } else {
        InlineModel {
            stack: st.stack.update(st.stack.len() - 1, with_child(st.stack.last(), n)),
            ..st
        }
    }
}

/// Literal text becomes a text node, unless it is empty.
pub open spec fn add_text(st: InlineModel, t: Seq<char>) -> InlineModel {
    if t.len() == 0 {
        st
    } else {
        attach(st, NodeModel::Text(t))
    }
}

/// The effect of one token on the state.
pub open spec fn apply(l: Seq<char>, i: int, st: InlineModel, t: TokenModel) -> Result<
    InlineModel,
    ErrorKindModel,
> {
    match t {
        TokenModel::Open { to, brace } => {
            let name = l.subrange(i + 1, to);
            let kind = if name.len() > 0 && name[0] == '@' {
                Some(ElementModel::Line(name.drop_first(), LineType::Inline))
            } else {
                element_of(name)
            };
            if kind is None {
                Err(ErrorKindModel::UnknownElement(name))
            } else if brace {
                Err(ErrorKindModel::InvalidParenPair)
            } else {
                Ok(InlineModel { stack: st.stack.push(empty_surrounded(kind->0)), ..st })
            }
        },
        TokenModel::Close => {
            if st.stack.len() == 0 {
                Err(ErrorKindModel::TooManyTagClosing)
            } else if is_parameter(st.stack.last()) {
                Err(ErrorKindModel::InvalidParenPair)
            } else {
                Ok(attach(InlineModel { stack: st.stack.drop_last(), ..st }, st.stack.last()))
            }
        },
        TokenModel::OpenParam => Ok(
            InlineModel { stack: st.stack.push(empty_surrounded(ElementModel::Parameter)), ..st },
        ),
        TokenModel::CloseParam => {
            if st.stack.len() == 0 {
                Err(ErrorKindModel::TooManyTagClosing)
            } else if !is_parameter(st.stack.last()) {
                Err(ErrorKindModel::InvalidParenPair)
            } else if st.stack.len() == 1 {
                // a parameter needs an open node to belong to
                Err(ErrorKindModel::InvalidParenPair)
            } else {
                let rest = st.stack.drop_last();
                Ok(
                    InlineModel {
                        stack: rest.update(
                            rest.len() - 1,
                            with_parameter(rest.last(), st.stack.last()),
                        ),
                        ..st
                    },
                )
            }
        },
    }
}

/// Matching from position `p` on, in state `st`.
pub open spec fn run(l: Seq<char>, p: int, st: InlineModel) -> Result<InlineModel, ErrorKindModel>
    decreases l.len() - p,
{
    match find_token(l, p) {
        None => {
            if st.stack.len() > 0 {
                Err(ErrorKindModel::TooManyTagOpening)
            } else {
                Ok(add_text(st, l.subrange(p, l.len() as int)))
            }
        },
        Some(i) => {
            let (t, resume) = token_at(l, i)->0;
            match apply(l, i, add_text(st, l.subrange(p, i)), t) {
                Err(e) => Err(e),
                Ok(next) => if p < resume <= l.len() {
                    run(l, resume, next)
                } else {
                    Err(ErrorKindModel::TooManyTagOpening)
                },
            }
        },
    }
}

pub open spec fn initial_inline() -> InlineModel {
    InlineModel { done: Seq::empty(), stack: Seq::empty() }
}

/// The nodes of one line, or the first structural error in it.
pub open spec fn inline_parse(l: Seq<char>) -> Result<Seq<NodeModel>, ErrorKindModel> {
    match run(l, 0, initial_inline()) {
        Ok(st) => Ok(st.done),
        Err(e) => Err(e),
    }
}

proof fn lemma_find_token(l: Seq<char>, p: int)
    requires
        0 <= p,
    ensures
        match find_token(l, p) {
            Some(i) => p <= i < l.len() && token_at(l, i) is Some,
            None => true,
        },
        forall|k: int| p <= k < l.len() && (find_token(l, p) is None || k < find_token(l, p)->0)
            ==> token_at(l, k) is None,
    decreases l.len() - p,
{
    if p < l.len() && token_at(l, p) is None {
        lemma_find_token(l, p + 1);
    }
}

proof fn lemma_token_resume(l: Seq<char>, i: int)
    requires
        token_at(l, i) is Some,
    ensures
        token_at(l, i) matches Some((t, resume)) && i < resume <= l.len() && (t matches TokenModel::Open { to, .. } ==> i + 1 < to < l.len()),
{
    if l[i] == '[' {
        let s = if i + 1 < l.len() && l[i + 1] == '@' { i + 2 } else { i + 1 };
        lemma_word_end_bounds(l, s);
        let e = word_end(l, s);
        if e < l.len() {
            lemma_space_end_bounds(l, e);
        }
    }
}

/// How a token changes the number of open nodes.
pub open spec fn depth_change(t: TokenModel) -> int {
    match t {
        TokenModel::Open { .. } => 1,
        TokenModel::OpenParam => 1,
        TokenModel::Close => -1,
        TokenModel::CloseParam => -1,
    }
}

/// From position `p` on, with `d` nodes open, no closing token finds nothing to close and no
/// node is left open at the end.
pub open spec fn balanced_from(l: Seq<char>, p: int, d: int) -> bool
    decreases l.len() - p,
{
    match find_token(l, p) {
        None => d == 0,
        Some(i) => {
            let (t, resume) = token_at(l, i)->0;
            d + depth_change(t) >= 0 && (p < resume <= l.len() ==> balanced_from(
                l,
                resume,
                d + depth_change(t),
            ))
        },
    }
}

/// Every tag and parameter of the line is closed, and none is closed before it opens.
pub open spec fn balanced(l: Seq<char>) -> bool {
    balanced_from(l, 0, 0)
}

proof fn lemma_run_depth(l: Seq<char>, p: int, st: InlineModel)
    requires
        0 <= p <= l.len(),
        balanced_from(l, p, st.stack.len() as int),
    ensures
        run(l, p, st) != Err::<InlineModel, ErrorKindModel>(ErrorKindModel::TooManyTagOpening),
        run(l, p, st) != Err::<InlineModel, ErrorKindModel>(ErrorKindModel::TooManyTagClosing),
        run(l, p, st) matches Ok(fin) ==> fin.stack.len() == 0,
    decreases l.len() - p,
{
    lemma_find_token(l, p);
    match find_token(l, p) {
        None => {},
        Some(i) => {
            lemma_token_resume(l, i);
            let (t, resume) = token_at(l, i)->0;
            let st1 = add_text(st, l.subrange(p, i));
            assert(st1.stack.len() == st.stack.len());
            match apply(l, i, st1, t) {
                Err(e) => {},
                Ok(next) => {
                    assert(next.stack.len() == st.stack.len() + depth_change(t));
                    lemma_run_depth(l, resume, next);
                },
            }
        },
    }
}

/// On a balanced line the matcher never reports a missing or a surplus closing, and whenever it
/// succeeds its stack of open nodes has returned to empty.
pub proof fn balanced_lines_close_every_tag(l: Seq<char>)
    requires
        balanced(l),
    ensures
        inline_parse(l) != Err::<Seq<NodeModel>, ErrorKindModel>(ErrorKindModel::TooManyTagOpening),
        inline_parse(l) != Err::<Seq<NodeModel>, ErrorKindModel>(ErrorKindModel::TooManyTagClosing),
        run(l, 0, initial_inline()) matches Ok(fin) ==> fin.stack.len() == 0,
{
    lemma_run_depth(l, 0, initial_inline());
}

/// A structural token found by the scanner.
#[derive(Clone, Copy)]
pub enum Token {
    Open { to: usize, brace: bool },
    Close,
    OpenParam,
    CloseParam,
}

impl View for Token {
    type V = TokenModel;

    open spec fn view(&self) -> TokenModel {
        match self {
            Token::Open { to, brace } => TokenModel::Open { to: *to as int, brace: *brace },
            Token::Close => TokenModel::Close,
            Token::OpenParam => TokenModel::OpenParam,
            Token::CloseParam => TokenModel::CloseParam,
        }
    }
}

fn scan_token_at(l: &Vec<char>, i: usize) -> (r: Option<(Token, usize)>)
    requires
        i < l@.len(),
    ensures
        match token_at(l@, i as int) {
            Some((t, resume)) => r matches Some((tok, res)) && tok@ == t && res == resume,
            None => r is None,
        },
{
    let len = l.len();
    let c = l[i];
    if c == '[' {
        let s = if i + 1 < l.len() && l[i + 1] == '@' { i + 2 } else { i + 1 };
        let e = find_word_end(l, s);
        proof {
            lemma_word_end_bounds(l@, s as int);
        }
        if e == s || e >= l.len() {
            None
        } else {
            let d = l[e];
            if d == '[' || d == ']' || d == '{' {
                Some((Token::Open { to: e, brace: false }, e))
            } else if d == '}' {
                Some((Token::Open { to: e, brace: true }, e + 1))
            } else if is_space(d) {
                Some((Token::Open { to: e, brace: false }, find_space_end(l, e)))
            } else {
                None
            }
        }
    } else if c == ']' {
        Some((Token::Close, i + 1))
    } else if c == '{' {
        Some((Token::OpenParam, i + 1))
    } else if c == '}' {
        Some((Token::CloseParam, i + 1))
    } else {
        None
    }
}

/// The next token at or after `p`: its position, the token, and where scanning resumes.
fn next_token(l: &Vec<char>, p: usize) -> (r: Option<(usize, Token, usize)>)
    requires
        p <= l@.len(),
    ensures
        match find_token(l@, p as int) {
            None => r is None,
            Some(i) => r matches Some((j, tok, resume)) && j == i && token_at(l@, i) == Some(
                (tok@, resume as int),
            ),
        },
{
    let mut i = p;
    while i < l.len()
        invariant
            p <= i <= l@.len(),
            find_token(l@, p as int) == find_token(l@, i as int),
        decreases l@.len() - i,
    {
        match scan_token_at(l, i) {
            Some((tok, resume)) => {
                return Some((i, tok, resume));
            },
            None => {},
        }
        i = i + 1;
    }
    None
}

fn element_named(l: &Vec<char>, from: usize, to: usize) -> (r: Option<Element>)
    requires
        from <= to <= l@.len(),
    ensures
        match element_of(l@.subrange(from as int, to as int)) {
            Some(k) => r matches Some(e) && e@ == k,
            None => r is None,
        },
{
    let n = slice_of(l, from, to);
    if is_text(&n, "b") {
        Some(Element::Bold)
    } else if is_text(&n, "i") {
        Some(Element::Italic)
    } else if is_text(&n, "ul") {
        Some(Element::Underlined)
    } else if is_text(&n, "st") {
        Some(Element::Deleted)
    } else if is_text(&n, "dt") {
        Some(Element::Dotted)
    } else if is_text(&n, "m") {
        Some(Element::Monospaced)
    } else if is_text(&n, "br") {
        Some(Element::Newline)
    } else if is_text(&n, "link") {
        Some(Element::Link)
    } else if is_text(&n, "ruby") {
        Some(Element::Ruby)
    } else if is_text(&n, "item") {
        Some(Element::Item)
    } else {
        None
    }
}

/// Nodes on the stack of open nodes are surrounded nodes.
pub open spec fn all_surrounded(s: Seq<ElementNode>) -> bool {
    forall|k: int| 0 <= k < s.len() ==> (#[trigger] s[k]) is Surrounded
}

pub open spec fn model_of(done: Seq<ElementNode>, stack: Seq<ElementNode>) -> InlineModel {
    InlineModel { done: nodes_view(done), stack: nodes_view(stack) }
}

/// Adds `n` to the children (or, with `as_parameter`, to the parameters) of the innermost open
/// node.
fn add_to_top(stack: &mut Vec<ElementNode>, n: ElementNode, as_parameter: bool)
    requires
        old(stack)@.len() > 0,
        all_surrounded(old(stack)@),
    ensures
        all_surrounded(final(stack)@),
        nodes_view(final(stack)@) == nodes_view(old(stack)@).update(
            old(stack)@.len() - 1,
            if as_parameter {
                with_parameter(nodes_view(old(stack)@).last(), n@)
            } else {
                with_child(nodes_view(old(stack)@).last(), n@)
            },
        ),
{
    let ghost before = stack@;
    let top = stack.pop().unwrap();
    match top {
        ElementNode::Surrounded { kind, mut parameters, mut children } => {
            proof {
                lemma_surrounded_view(kind, parameters, children);
                lemma_nodes_view_push(parameters@, n);
                lemma_nodes_view_push(children@, n);
            }
            if as_parameter {
                parameters.push(n);
            } else {
                children.push(n);
            }
            proof {
                lemma_surrounded_view(kind, parameters, children);
            }
            let ghost mid = stack@;
            let t = ElementNode::Surrounded { kind, parameters, children };
            stack.push(t);
            proof {
                assert(nodes_view(stack@) =~= nodes_view(before).update(before.len() - 1, node_view(t)));
                assert(all_surrounded(stack@)) by {
                    assert forall|k: int| 0 <= k < stack@.len() implies (#[trigger] stack@[k]) is Surrounded by {
                        if k < mid.len() {
                            assert(stack@[k] == before[k]);
                        }
                    }
                }
            }
        },
        ElementNode::Text(_) => {
            proof {
                assert(before[before.len() - 1] is Surrounded);
            }
        },
    }
}

/// A finished node goes to the innermost open node, or to `done` when none is open.
fn attach_node(done: &mut Vec<ElementNode>, stack: &mut Vec<ElementNode>, n: ElementNode)
    requires
        all_surrounded(old(stack)@),
    ensures
        all_surrounded(final(stack)@),
        model_of(final(done)@, final(stack)@) == attach(model_of(old(done)@, old(stack)@), n@),
{
    if stack.len() == 0 {
        proof {
            lemma_nodes_view_push(done@, n);
        }
        done.push(n);
    } else {
        add_to_top(stack, n, false);
    }
}

fn add_text_node(
    done: &mut Vec<ElementNode>,
    stack: &mut Vec<ElementNode>,
    l: &Vec<char>,
    from: usize,
    to: usize,
)
    requires
        from <= to <= l@.len(),
        all_surrounded(old(stack)@),
    ensures
        all_surrounded(final(stack)@),
        model_of(final(done)@, final(stack)@) == add_text(
            model_of(old(done)@, old(stack)@),
            l@.subrange(from as int, to as int),
        ),
{
    if from < to {
        let t = string_of(l, from, to);
        attach_node(done, stack, ElementNode::Text(t));
    }
}

/// Parses one line into element nodes. On failure nothing of the line is kept: the caller gets
/// the first structural error.
pub fn parse_inline(l: &Vec<char>) -> (r: Result<Vec<ElementNode>, ErrorKind>)
    ensures
        match inline_parse(l@) {
            Ok(ns) => r matches Ok(v) && nodes_view(v@) == ns,
            Err(e) => r matches Err(k) && k@ == e,
        },
{
    let mut done: Vec<ElementNode> = Vec::new();
    let mut stack: Vec<ElementNode> = Vec::new();
    let mut p: usize = 0;
    proof {
        assert(model_of(done@, stack@) =~= initial_inline()) by {
            assert(nodes_view(done@) =~= Seq::empty());
            assert(nodes_view(stack@) =~= Seq::empty());
        }
    }
    loop
        invariant
            p <= l@.len(),
            all_surrounded(stack@),
            run(l@, 0, initial_inline()) == run(l@, p as int, model_of(done@, stack@)),
        decreases l@.len() - p,
    {
        proof {
            lemma_find_token(l@, p as int);
        }
        match next_token(l, p) {
            None => {
                if stack.len() > 0 {
                    return Err(ErrorKind::TooManyTagOpening);
                }
                add_text_node(&mut done, &mut stack, l, p, l.len());
                return Ok(done);
            },
            Some((i, tok, resume)) => {
                proof {
                    lemma_token_resume(l@, i as int);
                }
                let ghost st = model_of(done@, stack@);
                add_text_node(&mut done, &mut stack, l, p, i);
                let ghost st1 = model_of(done@, stack@);
                match tok {
                    Token::Open { to, brace } => {
                        let kind: Element;
                        if l[i + 1] == '@' {
                            let id = string_of(l, i + 2, to);
                            proof {
                                assert(id@ =~= l@.subrange(i + 1, to as int).drop_first());
                            }
                            kind = Element::Line(id, LineType::Inline);
                        } else {
                            match element_named(l, i + 1, to) {
                                Some(k) => {
                                    kind = k;
                                },
                                None => {
                                    return Err(ErrorKind::UnknownElement(string_of(l, i + 1, to)));
                                },
                            }
                        }
                        if brace {
                            return Err(ErrorKind::InvalidParenPair);
                        }
                        let n = ElementNode::new_surrounded(kind);
                        proof {
                            lemma_nodes_view_push(stack@, n);
                        }
                        stack.push(n);
                        proof {
                            assert(all_surrounded(stack@)) by {
                                assert forall|k: int| 0 <= k < stack@.len() implies (#[trigger] stack@[k]) is Surrounded by {
                                    if k < stack@.len() - 1 {
                                        assert(stack@[k] == stack@.drop_last()[k]);
                                    }
                                }
                            }
                        }
                    },
                    Token::Close => {
                        if stack.len() == 0 {
                            return Err(ErrorKind::TooManyTagClosing);
                        }
                        let ghost before = stack@;
                        let top = stack.pop().unwrap();
                        proof {
                            assert(nodes_view(stack@) =~= nodes_view(before).drop_last());
                            assert(node_view(top) == nodes_view(before).last());
                        }
                        let is_param = match &top {
                            ElementNode::Surrounded { kind: Element::Parameter, .. } => true,
                            _ => false,
                        };
                        if is_param {
                            return Err(ErrorKind::InvalidParenPair);
                        }
                        attach_node(&mut done, &mut stack, top);
                    },
                    Token::OpenParam => {
                        let n = ElementNode::new_surrounded(Element::Parameter);
                        proof {
                            lemma_nodes_view_push(stack@, n);
                        }
                        stack.push(n);
                        proof {
                            assert(all_surrounded(stack@)) by {
                                assert forall|k: int| 0 <= k < stack@.len() implies (#[trigger] stack@[k]) is Surrounded by {
                                    if k < stack@.len() - 1 {
                                        assert(stack@[k] == stack@.drop_last()[k]);
                                    }
                                }
                            }
                        }
                    },
                    Token::CloseParam => {
                        if stack.len() == 0 {
                            return Err(ErrorKind::TooManyTagClosing);
                        }
                        let ghost before = stack@;
                        let top = stack.pop().unwrap();
                        proof {
                            assert(nodes_view(stack@) =~= nodes_view(before).drop_last());
                            assert(node_view(top) == nodes_view(before).last());
                        }
                        let is_param = match &top {
                            ElementNode::Surrounded { kind: Element::Parameter, .. } => true,
                            _ => false,
                        };
                        if !is_param {
                            return Err(ErrorKind::InvalidParenPair);
                        }
                        if stack.len() == 0 {
                            return Err(ErrorKind::InvalidParenPair);
                        }
                        add_to_top(&mut stack, top, true);
                    },
                }
                p = resume;
            },
        }
    }
}

// Character references ---------------------------------------------------------

/// The first character ID named by `e` or its descendants (parameters before children) that no
/// registered character has.
pub open spec fn unknown_in_node(e: NodeModel, reg: RegistryModel) -> Option<Seq<char>>
    decreases e, 1int,
{
    match e {
        NodeModel::Text(_) => None,
        NodeModel::Surrounded { kind, parameters, children } => {
            if kind matches ElementModel::Line(id, _) && !reg.contains(id) {
                Some(kind->Line_0)
            } else {
                match unknown_in_nodes(parameters, parameters.len() as int, reg) {
                    Some(id) => Some(id),
                    None => unknown_in_nodes(children, children.len() as int, reg),
                }
            }
        },
    }
}

/// The first unregistered character ID named within the first `i` nodes of `s`.
pub open spec fn unknown_in_nodes(s: Seq<NodeModel>, i: int, reg: RegistryModel) -> Option<
    Seq<char>,
>
    decreases s, 0int, i,
{
    if i <= 0 || i > s.len() {
        None
    } else {
        match unknown_in_nodes(s, i - 1, reg) {
            Some(id) => Some(id),
            None => unknown_in_node(s[i - 1], reg),
        }
    }
}

/// The nodes of one line whose character references all name registered characters.
pub open spec fn checked_inline(l: Seq<char>, reg: RegistryModel) -> Result<
    Seq<NodeModel>,
    ErrorKindModel,
> {
    match inline_parse(l) {
        Err(e) => Err(e),
        Ok(ns) => match unknown_in_nodes(ns, ns.len() as int, reg) {
            Some(id) => Err(ErrorKindModel::Semantic(SemanticModel::UndefinedCharacter(id))),
            None => Ok(ns),
        },
    }
}

pub open spec fn opt_string(o: Option<String>) -> Option<Seq<char>> {
    match o {
        Some(s) => Some(s@),
        None => None,
    }
}

fn find_unknown(characters: &CharacterSet, e: &ElementNode) -> (r: Option<String>)
    ensures
        opt_string(r) == unknown_in_node(e@, characters@),
    decreases e, 1int,
{
    match e {
        ElementNode::Text(_) => None,
        ElementNode::Surrounded { kind, parameters, children } => {
            proof {
                lemma_surrounded_view(*kind, *parameters, *children);
            }
            match kind {
                Element::Line(id, _) => {
                    if characters.get(id.as_str()).is_none() {
                        return Some(id.clone());
                    }
                },
                _ => {},
            }
            match find_unknown_in(characters, parameters) {
                Some(id) => Some(id),
                None => find_unknown_in(characters, children),
            }
        },
    }
}

fn find_unknown_in(characters: &CharacterSet, v: &Vec<ElementNode>) -> (r: Option<String>)
    ensures
        opt_string(r) == unknown_in_nodes(nodes_view(v@), v@.len() as int, characters@),
    decreases v, 0int,
{
    let ghost s = nodes_view(v@);
    let mut i: usize = 0;
    while i < v.len()
        invariant
            i <= v@.len(),
            s == nodes_view(v@),
            unknown_in_nodes(s, i as int, characters@) is None,
        decreases v@.len() - i,
    {
        let r = find_unknown(characters, &v[i]);
        proof {
            assert(s[i as int] == node_view(v@[i as int]));
        }
        if r.is_some() {
            proof {
                lemma_unknown_prefix(s, i as int + 1, v@.len() as int, characters@);
            }
            return r;
        }
        i = i + 1;
    }
    None
}

/// Once a reference is unknown within the first `k` nodes, it is the first unknown one of any
/// longer prefix.
pub proof fn lemma_unknown_prefix(s: Seq<NodeModel>, k: int, j: int, reg: RegistryModel)
    requires
        0 < k <= j <= s.len(),
        unknown_in_nodes(s, k, reg) is Some,
    ensures
        unknown_in_nodes(s, j, reg) == unknown_in_nodes(s, k, reg),
    decreases j - k,
{
    if j > k {
        lemma_unknown_prefix(s, k, j - 1, reg);
    }
}

/// Parses one line and checks that its character references name registered characters.
pub fn parse_inline_checked(l: &Vec<char>, characters: &CharacterSet) -> (r: Result<
    Vec<ElementNode>,
    ErrorKind,
>)
    ensures
        match checked_inline(l@, characters@) {
            Ok(ns) => r matches Ok(v) && nodes_view(v@) == ns,
            Err(e) => r matches Err(k) && k@ == e,
        },
{
    match parse_inline(l) {
        Err(e) => Err(e),
        Ok(nodes) => match find_unknown_in(characters, &nodes) {
            Some(id) => Err(ErrorKind::Semantic(SemanticErrorKind::UndefinedCharacter(id))),
            None => Ok(nodes),
        },
    }
}

/// A reference that is known in a registry stays known in a registry that grew from it.
pub proof fn lemma_unknown_node_monotone(e: NodeModel, a: RegistryModel, b: RegistryModel)
    requires
        grows(a, b),
        unknown_in_node(e, a) is None,
    ensures
        unknown_in_node(e, b) is None,
    decreases e, 1int,
{
    if let NodeModel::Surrounded { kind, parameters, children } = e {
        if let ElementModel::Line(id, _) = kind {
            assert(a.contains(id));
            assert(b.contains(id));
        }
        lemma_unknown_nodes_monotone(parameters, parameters.len() as int, a, b);
        lemma_unknown_nodes_monotone(children, children.len() as int, a, b);
    }
}

pub proof fn lemma_unknown_nodes_monotone(s: Seq<NodeModel>, i: int, a: RegistryModel, b: RegistryModel)
    requires
        grows(a, b),
        unknown_in_nodes(s, i, a) is None,
    ensures
        unknown_in_nodes(s, i, b) is None,
    decreases s, 0int, i,
{
    if 0 < i <= s.len() {
        lemma_unknown_nodes_monotone(s, i - 1, a, b);
        lemma_unknown_node_monotone(s[i - 1], a, b);
    }
}

/// Every node of a prefix without unknown references has none.
pub proof fn lemma_unknown_each(s: Seq<NodeModel>, i: int, reg: RegistryModel)
    requires
        0 <= i <= s.len(),
        unknown_in_nodes(s, i, reg) is None,
    ensures
        forall|j: int| 0 <= j < i ==> (#[trigger] unknown_in_node(s[j], reg)) is None,
    decreases i,
{
    if i > 0 {
        lemma_unknown_each(s, i - 1, reg);
    }
}

/// Looking at the first `k` nodes depends on those nodes alone.
pub proof fn lemma_unknown_prefix_stable(s: Seq<NodeModel>, t: Seq<NodeModel>, k: int, reg: RegistryModel)
    requires
        0 <= k <= s.len(),
        k <= t.len(),
        s.subrange(0, k) == t.subrange(0, k),
    ensures
        unknown_in_nodes(s, k, reg) == unknown_in_nodes(t, k, reg),
    decreases k,
{
    if k > 0 {
        assert(s.subrange(0, k - 1) =~= s.subrange(0, k).subrange(0, k - 1));
        assert(t.subrange(0, k - 1) =~= t.subrange(0, k).subrange(0, k - 1));
        assert(s[k - 1] == s.subrange(0, k)[k - 1]);
        assert(t[k - 1] == t.subrange(0, k)[k - 1]);
        lemma_unknown_prefix_stable(s, t, k - 1, reg);
    }
}

proof fn lemma_unknown_append_upto(a: Seq<NodeModel>, b: Seq<NodeModel>, j: int, reg: RegistryModel)
    requires
        0 <= j <= b.len(),
        unknown_in_nodes(a, a.len() as int, reg) is None,
        forall|x: int| 0 <= x < b.len() ==> (#[trigger] unknown_in_node(b[x], reg)) is None,
    ensures
        unknown_in_nodes(a + b, a.len() + j, reg) is None,
    decreases j,
{
    let ab = a + b;
    if j == 0 {
        assert(ab.subrange(0, a.len() as int) =~= a.subrange(0, a.len() as int));
        lemma_unknown_prefix_stable(ab, a, a.len() as int, reg);
    } else {
        lemma_unknown_append_upto(a, b, j - 1, reg);
        assert(ab[a.len() + j - 1] == b[j - 1]);
        assert(unknown_in_node(b[j - 1], reg) is None);
        assert(unknown_in_nodes(ab, a.len() + j - 1, reg) is None);
        assert(0 < a.len() + j <= ab.len());
    }
}

/// Two sequences without unknown references make one without.
pub proof fn lemma_unknown_append(a: Seq<NodeModel>, b: Seq<NodeModel>, reg: RegistryModel)
    requires
        unknown_in_nodes(a, a.len() as int, reg) is None,
        unknown_in_nodes(b, b.len() as int, reg) is None,
    ensures
        unknown_in_nodes(a + b, (a + b).len() as int, reg) is None,
{
    lemma_unknown_each(b, b.len() as int, reg);
    lemma_unknown_append_upto(a, b, b.len() as int, reg);
}

// Well-paired lines -------------------------------------------------------------

/// A tag name that opens a node: a character reference or a known element.
pub open spec fn known_tag(name: Seq<char>) -> bool {
    (name.len() > 0 && name[0] == '@') || element_of(name) is Some
}

/// From position `p` on, with open nodes whose kinds are `open` (`true` for a parameter,
/// innermost last): every tag has a known name and is followed by no `}`, every `]` closes a
/// tag, every `}` closes a parameter that belongs to an open node, and nothing stays open.
pub open spec fn well_paired_from(l: Seq<char>, p: int, open: Seq<bool>) -> bool
    decreases l.len() - p,
{
    match find_token(l, p) {
        None => open.len() == 0,
        Some(i) => {
            let (t, resume) = token_at(l, i)->0;
            p < resume <= l.len() && match t {
                TokenModel::Open { to, brace } => !brace && known_tag(l.subrange(i + 1, to))
                    && well_paired_from(l, resume, open.push(false)),
                TokenModel::Close => open.len() > 0 && !open.last() && well_paired_from(
                    l,
                    resume,
                    open.drop_last(),
                ),
                TokenModel::OpenParam => well_paired_from(l, resume, open.push(true)),
                TokenModel::CloseParam => open.len() >= 2 && open.last() && well_paired_from(
                    l,
                    resume,
                    open.drop_last(),
                ),
            }
        },
    }
}

/// The line's tags and parameters are well paired and its tag names are known.
pub open spec fn well_paired(l: Seq<char>) -> bool {
    well_paired_from(l, 0, Seq::empty())
}

/// The kinds of the open nodes: `true` for a parameter.
pub open spec fn open_kinds(stack: Seq<NodeModel>) -> Seq<bool> {
    stack.map_values(|n: NodeModel| is_parameter(n))
}

proof fn lemma_attach_kinds(st: InlineModel, n: NodeModel)
    ensures
        open_kinds(attach(st, n).stack) == open_kinds(st.stack),
{
    assert(open_kinds(attach(st, n).stack) =~= open_kinds(st.stack));
}

proof fn lemma_run_well_paired(l: Seq<char>, p: int, st: InlineModel)
    requires
        0 <= p <= l.len(),
        well_paired_from(l, p, open_kinds(st.stack)),
    ensures
        run(l, p, st) is Ok,
    decreases l.len() - p,
{
    lemma_find_token(l, p);
    match find_token(l, p) {
        None => {},
        Some(i) => {
            lemma_token_resume(l, i);
            let (t, resume) = token_at(l, i)->0;
            let st1 = add_text(st, l.subrange(p, i));
            lemma_attach_kinds(st, NodeModel::Text(l.subrange(p, i)));
            let k = open_kinds(st1.stack);
            assert(k == open_kinds(st.stack));
            match t {
                TokenModel::Open { to, brace } => {
                    let name = l.subrange(i + 1, to);
                    let kind = if name.len() > 0 && name[0] == '@' {
                        Some(ElementModel::Line(name.drop_first(), LineType::Inline))
                    } else {
                        element_of(name)
                    };
                    let next = InlineModel { stack: st1.stack.push(empty_surrounded(kind->0)), ..st1 };
                    assert(open_kinds(next.stack) =~= k.push(false));
                    lemma_run_well_paired(l, resume, next);
                },
                TokenModel::Close => {
                    let top = st1.stack.last();
                    assert(k.last() == is_parameter(top));
                    let rest = InlineModel { stack: st1.stack.drop_last(), ..st1 };
                    assert(open_kinds(rest.stack) =~= k.drop_last());
                    lemma_attach_kinds(rest, top);
                    lemma_run_well_paired(l, resume, attach(rest, top));
                },
                TokenModel::OpenParam => {
                    let next = InlineModel {
                        stack: st1.stack.push(empty_surrounded(ElementModel::Parameter)),
                        ..st1
                    };
                    assert(open_kinds(next.stack) =~= k.push(true));
                    lemma_run_well_paired(l, resume, next);
                },
                TokenModel::CloseParam => {
                    assert(k.last() == is_parameter(st1.stack.last()));
                    let rest = st1.stack.drop_last();
                    let next = InlineModel {
                        stack: rest.update(rest.len() - 1, with_parameter(rest.last(), st1.stack.last())),
                        ..st1
                    };
                    assert(open_kinds(next.stack) =~= k.drop_last());
                    lemma_run_well_paired(l, resume, next);
                },
            }
        },
    }
}

/// A well-paired line with known tag names always parses: every tag and parameter it opens is
/// closed, so no structural error arises and the stack of open nodes ends empty.
pub proof fn well_paired_lines_parse(l: Seq<char>)
    requires
        well_paired(l),
    ensures
        inline_parse(l) is Ok,
        run(l, 0, initial_inline()) matches Ok(fin) && fin.stack.len() == 0,
{
    assert(open_kinds(initial_inline().stack) =~= Seq::<bool>::empty());
    lemma_run_well_paired(l, 0, initial_inline());
    lemma_run_stack_empty(l, 0, initial_inline());
}

proof fn lemma_run_stack_empty(l: Seq<char>, p: int, st: InlineModel)
    requires
        0 <= p <= l.len(),
    ensures
        run(l, p, st) matches Ok(fin) ==> fin.stack.len() == 0,
    decreases l.len() - p,
{
    lemma_find_token(l, p);
    if let Some(i) = find_token(l, p) {
        lemma_token_resume(l, i);
        let (t, resume) = token_at(l, i)->0;
        if let Ok(next) = apply(l, i, add_text(st, l.subrange(p, i)), t) {
            lemma_run_stack_empty(l, resume, next);
        }
    }
}

// Counting nodes ------------------------------------------------------------------

/// The number of surrounded nodes in `e`, itself included.
pub open spec fn node_count(e: NodeModel) -> nat
    decreases e, 1int,
{
    match e {
        NodeModel::Text(_) => 0,
        NodeModel::Surrounded { parameters, children, .. } => 1 + forest_count(
            parameters,
            parameters.len() as int,
        ) + forest_count(children, children.len() as int),
    }
}

/// The number of surrounded nodes in the first `i` nodes of `s`.
pub open spec fn forest_count(s: Seq<NodeModel>, i: int) -> nat
    decreases s, 0int, i,
{
    if i <= 0 || i > s.len() {
        0
    } else {
        forest_count(s, i - 1) + node_count(s[i - 1])
    }
}

/// The number of tags and parameters opened from position `p` on.
pub open spec fn openers_from(l: Seq<char>, p: int) -> nat
    decreases l.len() - p,
{
    match find_token(l, p) {
        None => 0,
        Some(i) => {
            let (t, resume) = token_at(l, i)->0;
            if p < resume <= l.len() {
                (if t is Open || t is OpenParam { 1nat } else { 0nat }) + openers_from(l, resume)
            } else {
                0
            }
        },
    }
}

proof fn lemma_forest_prefix(s: Seq<NodeModel>, t: Seq<NodeModel>, k: int)
    requires
        0 <= k <= s.len(),
        k <= t.len(),
        s.subrange(0, k) == t.subrange(0, k),
    ensures
        forest_count(s, k) == forest_count(t, k),
    decreases k,
{
    if k > 0 {
        assert(s.subrange(0, k - 1) =~= s.subrange(0, k).subrange(0, k - 1));
        assert(t.subrange(0, k - 1) =~= t.subrange(0, k).subrange(0, k - 1));
        assert(s[k - 1] == s.subrange(0, k)[k - 1]);
        assert(t[k - 1] == t.subrange(0, k)[k - 1]);
        lemma_forest_prefix(s, t, k - 1);
    }
}

proof fn lemma_forest_push(s: Seq<NodeModel>, x: NodeModel)
    ensures
        forest_count(s.push(x), s.len() + 1int) == forest_count(s, s.len() as int) + node_count(x),
{
    assert(s.push(x).subrange(0, s.len() as int) =~= s.subrange(0, s.len() as int));
    lemma_forest_prefix(s.push(x), s, s.len() as int);
    assert(s.push(x)[s.len() as int] == x);
}

proof fn lemma_forest_last(s: Seq<NodeModel>)
    requires
        s.len() > 0,
    ensures
        forest_count(s, s.len() as int) == forest_count(s.drop_last(), s.len() - 1) + node_count(s.last()),
{
    assert(s.drop_last().push(s.last()) =~= s);
    lemma_forest_push(s.drop_last(), s.last());
}

proof fn lemma_forest_update_last(s: Seq<NodeModel>, y: NodeModel)
    requires
        s.len() > 0,
    ensures
        forest_count(s.update(s.len() - 1, y), s.len() as int) == forest_count(s.drop_last(), s.len() - 1)
            + node_count(y),
{
    let u = s.update(s.len() - 1, y);
    assert(u.drop_last() =~= s.drop_last());
    assert(u.last() == y);
    lemma_forest_last(u);
}

proof fn lemma_with_child_count(n: NodeModel, c: NodeModel)
    requires
        n is Surrounded,
    ensures
        node_count(with_child(n, c)) == node_count(n) + node_count(c),
        node_count(with_parameter(n, c)) == node_count(n) + node_count(c),
{
    if let NodeModel::Surrounded { kind, parameters, children } = n {
        lemma_forest_push(children, c);
        lemma_forest_push(parameters, c);
    }
}

pub open spec fn total_count(st: InlineModel) -> nat {
    forest_count(st.done, st.done.len() as int) + forest_count(st.stack, st.stack.len() as int)
}

pub open spec fn stack_surrounded(st: InlineModel) -> bool {
    forall|k: int| 0 <= k < st.stack.len() ==> (#[trigger] st.stack[k]) is Surrounded
}

proof fn lemma_attach_count(st: InlineModel, n: NodeModel)
    requires
        stack_surrounded(st),
    ensures
        total_count(attach(st, n)) == total_count(st) + node_count(n),
        stack_surrounded(attach(st, n)),
{
    if st.stack.len() == 0 {
        lemma_forest_push(st.done, n);
    } else {
        let top = st.stack.last();
        lemma_with_child_count(top, n);
        lemma_forest_update_last(st.stack, with_child(top, n));
        lemma_forest_last(st.stack);
        let u = st.stack.update(st.stack.len() - 1, with_child(top, n));
        assert forall|k: int| 0 <= k < u.len() implies (#[trigger] u[k]) is Surrounded by {
            if k < u.len() - 1 {
                assert(u[k] == st.stack[k]);
            }
        }
    }
}

proof fn lemma_run_count(l: Seq<char>, p: int, st: InlineModel)
    requires
        0 <= p <= l.len(),
        stack_surrounded(st),
    ensures
        run(l, p, st) matches Ok(fin) ==> total_count(fin) == total_count(st) + openers_from(l, p),
    decreases l.len() - p,
{
    lemma_find_token(l, p);
    match find_token(l, p) {
        None => {
            lemma_attach_count(st, NodeModel::Text(l.subrange(p, l.len() as int)));
        },
        Some(i) => {
            lemma_token_resume(l, i);
            let (t, resume) = token_at(l, i)->0;
            let st1 = add_text(st, l.subrange(p, i));
            lemma_attach_count(st, NodeModel::Text(l.subrange(p, i)));
            assert(total_count(st1) == total_count(st));
            assert(stack_surrounded(st1));
            if let Ok(next) = apply(l, i, st1, t) {
                match t {
                    TokenModel::Open { .. } | TokenModel::OpenParam => {
                        let e = next.stack.last();
                        assert(next.stack.drop_last() =~= st1.stack);
                        lemma_forest_last(next.stack);
                        assert(node_count(e) == 1);
                        assert forall|k: int| 0 <= k < next.stack.len() implies (
                        #[trigger] next.stack[k]) is Surrounded by {
                            if k < st1.stack.len() {
                                assert(next.stack[k] == st1.stack[k]);
                            }
                        }
                    },
                    TokenModel::Close => {
                        let rest = InlineModel { stack: st1.stack.drop_last(), ..st1 };
                        lemma_forest_last(st1.stack);
                        assert forall|k: int| 0 <= k < rest.stack.len() implies (
                        #[trigger] rest.stack[k]) is Surrounded by {
                            assert(rest.stack[k] == st1.stack[k]);
                        }
                        lemma_attach_count(rest, st1.stack.last());
                    },
                    TokenModel::CloseParam => {
                        let rest = st1.stack.drop_last();
                        let top = rest.last();
                        assert(top == st1.stack[st1.stack.len() - 2]);
                        lemma_with_child_count(top, st1.stack.last());
                        lemma_forest_last(st1.stack);
                        lemma_forest_last(rest);
                        lemma_forest_update_last(rest, with_parameter(top, st1.stack.last()));
                        let u = rest.update(rest.len() - 1, with_parameter(top, st1.stack.last()));
                        assert forall|k: int| 0 <= k < u.len() implies (#[trigger] u[k]) is Surrounded by {
                            if k < u.len() - 1 {
                                assert(u[k] == st1.stack[k]);
                            }
                        }
                    },
                }
                lemma_run_count(l, resume, next);
            }
        },
    }
}

/// Every tag and parameter that a line opens becomes exactly one surrounded node of the parsed
/// nodes, counting nested children and parameters: none is left open or dropped.
pub proof fn parsed_lines_keep_every_opener(l: Seq<char>)
    ensures
        inline_parse(l) matches Ok(ns) ==> forest_count(ns, ns.len() as int) == openers_from(l, 0),
{
    let st = initial_inline();
    lemma_run_count(l, 0, st);
    lemma_run_stack_empty(l, 0, st);
}

} // verus!
