//! The HTML renderer.
use vstd::prelude::*;

use crate::document::{
    display_name_of, lemma_surrounded_view, node_view, nodes_view, Block, BlockModel, BlockNode,
    CharacterModel, CharacterSet, CharacterType, Document, DocumentModel, Element, ElementModel,
    ElementNode, LineType, NodeModel, RegistryModel, entries_view,
};
use crate::inline::{lemma_unknown_each, unknown_in_node, unknown_in_nodes};
use crate::parser::{block_known, lines_known, parse_document, parsed_documents_name_registered_characters};
use crate::text::{chars_of, decimal, push_char, push_decimal};

verus! {

// Error ----------------------------------------------------------------------

/// Represents error kinds in HtmlEmitter.
#[derive(Debug, PartialEq, Eq)]
pub enum HtmlEmitterError {
    /// Undefined character ID appeared.
    UndefinedCharacter(String),
    /// Invalid parameter value detected.
    InvalidParameter(String),
}

/// The mathematical value of an `HtmlEmitterError`.
pub enum HtmlErrorModel {
    UndefinedCharacter(Seq<char>),
    InvalidParameter(Seq<char>),
}

impl View for HtmlEmitterError {
    type V = HtmlErrorModel;

    open spec fn view(&self) -> HtmlErrorModel {
        match self {
            HtmlEmitterError::UndefinedCharacter(s) => HtmlErrorModel::UndefinedCharacter(s@),
            HtmlEmitterError::InvalidParameter(s) => HtmlErrorModel::InvalidParameter(s@),
        }
    }
}

// Specification ---------------------------------------------------------------

/// The entity for a reserved character, or the character itself.
pub open spec fn escape_char(c: char) -> Seq<char> {
    if c == '<' {
        "&lt;"@
    } else if c == '>' {
        "&gt;"@
    } else if c == '&' {
        "&amp;"@
    } else if c == '"' {
        "&quot;"@
    } else {
        seq![c]
    }
}

/// Text with `<`, `>`, `&` and `"` replaced by entities.
pub open spec fn escape(t: Seq<char>) -> Seq<char>
    decreases t.len(),
{
    if t.len() == 0 {
        Seq::empty()
    } else {
        escape(t.drop_last()) + escape_char(t.last())
    }
}

/// Escaped text holds no `<`, `>` or `"`: reserved characters only appear as entities.
pub proof fn escaped_text_has_no_markup(t: Seq<char>)
    ensures
        forall|i: int|
            0 <= i < escape(t).len() ==> #[trigger] escape(t)[i] != '<' && escape(t)[i] != '>'
                && escape(t)[i] != '"',
    decreases t.len(),
{
    reveal_strlit("&lt;");
    reveal_strlit("&gt;");
    reveal_strlit("&amp;");
    reveal_strlit("&quot;");
    if t.len() > 0 {
        escaped_text_has_no_markup(t.drop_last());
        let a = escape(t.drop_last());
        let b = escape_char(t.last());
        assert forall|i: int| 0 <= i < escape(t).len() implies #[trigger] escape(t)[i] != '<'
            && escape(t)[i] != '>' && escape(t)[i] != '"' by {
            if i >= a.len() {
                assert(escape(t)[i] == b[i - a.len()]);
            } else {
                assert(escape(t)[i] == a[i]);
            }
        }
    }
}

/// `w` occurs in `s` at position `i`.
pub open spec fn occurs_at(s: Seq<char>, i: int, w: Seq<char>) -> bool {
    0 <= i && i + w.len() <= s.len() && s.subrange(i, i + w.len()) == w
}

/// One of the four entities starts at position `i`.
pub open spec fn entity_at(s: Seq<char>, i: int) -> bool {
    occurs_at(s, i, "&lt;"@) || occurs_at(s, i, "&gt;"@) || occurs_at(s, i, "&amp;"@) || occurs_at(
        s,
        i,
        "&quot;"@,
    )
}

proof fn lemma_entity_in_prefix(a: Seq<char>, b: Seq<char>, i: int)
    requires
        entity_at(a, i),
    ensures
        entity_at(a + b, i),
{
    let s = a + b;
    assert forall|w: Seq<char>| occurs_at(a, i, w) implies occurs_at(s, i, w) by {
        assert(s.subrange(i, i + w.len()) =~= a.subrange(i, i + w.len()));
    }
}

/// In escaped text every `&` begins one of the entities `&lt;`, `&gt;`, `&amp;`, `&quot;`.
pub proof fn escaped_ampersands_begin_entities(t: Seq<char>)
    ensures
        forall|i: int| 0 <= i < escape(t).len() && #[trigger] escape(t)[i] == '&' ==> entity_at(escape(t), i),
    decreases t.len(),
{
    reveal_strlit("&lt;");
    reveal_strlit("&gt;");
    reveal_strlit("&amp;");
    reveal_strlit("&quot;");
    if t.len() > 0 {
        escaped_ampersands_begin_entities(t.drop_last());
        let a = escape(t.drop_last());
        let b = escape_char(t.last());
        let s = escape(t);
        assert(s == a + b);
        assert forall|i: int| 0 <= i < s.len() && #[trigger] s[i] == '&' implies entity_at(s, i) by {
            if i < a.len() {
                assert(s[i] == a[i]);
                lemma_entity_in_prefix(a, b, i);
            } else {
                assert(s[i] == b[i - a.len()]);
                assert(i == a.len());
                assert(s.subrange(i, i + b.len()) =~= b);
            }
        }
    }
}

/// The class of a character: `{kind}-{ordinal mod palette}`, or `custom-{color}`.
pub open spec fn class_of(c: CharacterModel, palette: nat) -> Seq<char> {
    match c {
        CharacterModel::Male(i, _) => "male-"@ + decimal(i % palette),
        CharacterModel::Female(i, _) => "female-"@ + decimal(i % palette),
        CharacterModel::Mob(i, _) => "mob-"@ + decimal(i % palette),
        CharacterModel::Custom(color, _) => "custom-"@ + color,
    }
}

pub open spec fn wrap(
    open_tag: Seq<char>,
    inner: Result<Seq<char>, HtmlErrorModel>,
    close_tag: Seq<char>,
) -> Result<Seq<char>, HtmlErrorModel> {
    match inner {
        Ok(body) => Ok(open_tag + body + close_tag),
        Err(e) => Err(e),
    }
}

/// The link target: the first parameter must hold exactly one text node.
pub open spec fn link_target(ps: Seq<NodeModel>) -> Result<Seq<char>, HtmlErrorModel> {
    if ps.len() == 0 {
        Err(HtmlErrorModel::InvalidParameter("Link URL needed"@))
    } else {
        match ps[0] {
            NodeModel::Surrounded { kind: ElementModel::Parameter, children, .. } => {
                if children.len() == 1 && children[0] is Text {
                    Ok(children[0]->Text_0)
                } else {
                    Err(
                        HtmlErrorModel::InvalidParameter(
                            "Only a plain text content is valid for link target"@,
                        ),
                    )
                }
            },
            _ => Err(
                HtmlErrorModel::InvalidParameter(
                    "Only a plain text content is valid for link target"@,
                ),
            ),
        }
    }
}

/// The HTML of a node.
pub open spec fn html_node(e: NodeModel, reg: RegistryModel, palette: nat) -> Result<
    Seq<char>,
    HtmlErrorModel,
>
    decreases e, 0int,
{
    match e {
        NodeModel::Text(t) => Ok(escape(t)),
        NodeModel::Surrounded { kind, parameters, children } => {
            let inner = html_nodes(children, children.len() as int, reg, palette);
            match kind {
                ElementModel::Line(id, style) => match reg.lookup(id) {
                    None => Err(HtmlErrorModel::UndefinedCharacter(id)),
                    Some(c) => if style == LineType::Inline {
                        wrap(
                            "<span class=\"inline line "@ + class_of(c, palette) + "\">"@,
                            inner,
                            "</span>"@,
                        )
                    } else {
                        wrap(
                            "\n<span class=\"line "@ + class_of(c, palette) + "\">"@ + if style
                                == LineType::NameShownBlock {
                                escape(display_name_of(c))
                            } else {
                                Seq::empty()
                            },
                            inner,
                            "</span>\n"@,
                        )
                    },
                },
                ElementModel::Bold => wrap("<strong>"@, inner, "</strong>"@),
                ElementModel::Italic => wrap("<i>"@, inner, "</i>"@),
                ElementModel::Underlined => wrap("<span class=\"underline\">"@, inner, "</span>"@),
                ElementModel::Deleted => wrap("<del>"@, inner, "</del>"@),
                ElementModel::Dotted => wrap("<span class=\"dots\">"@, inner, "</span>"@),
                ElementModel::Monospaced => wrap("<code>"@, inner, "</code>"@),
                ElementModel::Item => wrap("<li>"@, inner, "</li>\n"@),
                ElementModel::Link => match link_target(parameters) {
                    Err(x) => Err(x),
                    Ok(url) => wrap("<a href=\""@ + escape(url) + "\">"@, inner, "</a>"@),
                },
                ElementModel::Ruby => match inner {
                    Err(x) => Err(x),
                    Ok(body) => {
                        let gloss = if parameters.len() > 0 {
                            html_node(parameters[0], reg, palette)
                        } else {
                            Ok(Seq::empty())
                        };
                        wrap("<ruby>"@ + body + "<rp>(</rp><rt>"@, gloss, "</rt><rp>)</rp></ruby>"@)
                    },
                },
                ElementModel::Newline => Ok("<br>\n"@),
                ElementModel::Parameter => inner,
            }
        },
    }
}

/// The HTML of the first `i` nodes of `s`, one after another.
pub open spec fn html_nodes(s: Seq<NodeModel>, i: int, reg: RegistryModel, palette: nat) -> Result<
    Seq<char>,
    HtmlErrorModel,
>
    decreases s, i,
{
    if i <= 0 || i > s.len() {
        Ok(Seq::empty())
    } else {
        match html_nodes(s, i - 1, reg, palette) {
            Err(x) => Err(x),
            Ok(a) => match html_node(s[i - 1], reg, palette) {
                Err(x) => Err(x),
                Ok(b) => Ok(a + b),
            },
        }
    }
}

/// An error among the first `k` nodes is the error of the first `j >= k` nodes too.
pub proof fn lemma_nodes_error(s: Seq<NodeModel>, k: int, j: int, reg: RegistryModel, palette: nat)
    requires
        0 < k <= j <= s.len(),
        html_nodes(s, k, reg, palette) is Err,
    ensures
        html_nodes(s, j, reg, palette) == html_nodes(s, k, reg, palette),
    decreases j - k,
{
    if j > k {
        lemma_nodes_error(s, k, j - 1, reg, palette);
    }
}

pub open spec fn is_item(e: NodeModel) -> bool {
    e matches NodeModel::Surrounded { kind: ElementModel::Item, .. }
}

/// The HTML of the list items among the first `i` nodes of `s`.
pub open spec fn html_items(s: Seq<NodeModel>, i: int, reg: RegistryModel, palette: nat) -> Result<
    Seq<char>,
    HtmlErrorModel,
>
    decreases i,
{
    if i <= 0 || i > s.len() {
        Ok(Seq::empty())
    } else {
        match html_items(s, i - 1, reg, palette) {
            Err(x) => Err(x),
            Ok(a) => if is_item(s[i - 1]) {
                match html_node(s[i - 1], reg, palette) {
                    Err(x) => Err(x),
                    Ok(b) => Ok(a + b),
                }
            } else {
                Ok(a)
            },
        }
    }
}

pub proof fn lemma_items_error(s: Seq<NodeModel>, k: int, j: int, reg: RegistryModel, palette: nat)
    requires
        0 < k <= j <= s.len(),
        html_items(s, k, reg, palette) is Err,
    ensures
        html_items(s, j, reg, palette) == html_items(s, k, reg, palette),
    decreases j - k,
{
    if j > k {
        lemma_items_error(s, k, j - 1, reg, palette);
    }
}

/// The HTML of the block at position `idx` of the document.
pub open spec fn html_block(b: BlockModel, idx: nat, reg: RegistryModel, palette: nat) -> Result<
    Seq<char>,
    HtmlErrorModel,
> {
    let inner = html_nodes(b.children, b.children.len() as int, reg, palette);
    match b.kind {
        Block::Paragraph => wrap("<p>\n"@, inner, "\n</p>\n"@),
        Block::Quotation => wrap("<blockquote>\n"@, inner, "\n</blockquote>\n"@),
        Block::UnorderedList => wrap(
            "<ul>\n"@,
            html_items(b.children, b.children.len() as int, reg, palette),
            "\n</ul>\n"@,
        ),
        Block::Section => wrap("<h2 id=\"section-"@ + decimal(idx) + "\">"@, inner, "</h2>\n"@),
        Block::Subsection => wrap("<h3 id=\"section-"@ + decimal(idx) + "\">"@, inner, "</h3>\n"@),
        Block::Horizontal => Ok("<hr>\n"@),
    }
}

/// The HTML of the first `i` blocks.
pub open spec fn html_blocks(bs: Seq<BlockModel>, i: int, reg: RegistryModel, palette: nat) -> Result<
    Seq<char>,
    HtmlErrorModel,
>
    decreases i,
{
    if i <= 0 || i > bs.len() {
        Ok(Seq::empty())
    } else {
        match html_blocks(bs, i - 1, reg, palette) {
            Err(x) => Err(x),
            Ok(a) => match html_block(bs[i - 1], (i - 1) as nat, reg, palette) {
                Err(x) => Err(x),
                Ok(b) => Ok(a + b),
            },
        }
    }
}

/// One rule per custom color character among the first `i` entries, in enumeration order.
pub open spec fn style_rules(e: Seq<(Seq<char>, CharacterModel)>, i: int) -> Seq<char>
    decreases i,
{
    if i <= 0 || i > e.len() {
        Seq::empty()
    } else {
        style_rules(e, i - 1) + match e[i - 1].1 {
            CharacterModel::Custom(color, _) => ".custom-"@ + color + " { color: #"@ + color
                + "; }\n"@,
            _ => Seq::empty(),
        }
    }
}

pub open spec fn stylesheet(reg: RegistryModel) -> Seq<char> {
    "<style>\n"@ + style_rules(reg.entries, reg.entries.len() as int) + "</style>\n"@
}

/// The HTML of a whole document: the stylesheet, then every block.
pub open spec fn html_document(d: DocumentModel, palette: nat) -> Result<Seq<char>, HtmlErrorModel> {
    match html_blocks(d.blocks, d.blocks.len() as int, d.characters, palette) {
        Ok(b) => Ok(stylesheet(d.characters) + b),
        Err(x) => Err(x),
    }
}

// Emitter --------------------------------------------------------------------

/// The HTML emitter.
pub struct HtmlEmitter {
    max_reserved_characters: usize,
}

fn append(out: &mut String, s: &str)
    ensures
        final(out)@ == old(out)@ + s@,
{
    out.append(s);
}

impl HtmlEmitter {
    /// Creates a new instance, cycling preset character classes through `max_characters`
    /// indices.
    pub fn new(max_characters: usize) -> (r: HtmlEmitter)
        requires
            max_characters > 0,
        ensures
            r.palette() == max_characters,
    {
        HtmlEmitter { max_reserved_characters: max_characters }
    }

    /// Preset character classes cycle through at least one index.
    #[verifier::type_invariant]
    spec fn palette_is_positive(&self) -> bool {
        self.max_reserved_characters > 0
    }

    /// The number of classes that preset characters cycle through.
    pub closed spec fn palette(&self) -> nat {
        self.max_reserved_characters as nat
    }

    /// Appends the class name for a character.
    fn write_character_class(&self, out: &mut String, c: &CharacterType)
        requires
            self.palette() > 0,
        ensures
            final(out)@ == old(out)@ + class_of(c@, self.palette()),
    {
        let p = self.max_reserved_characters;
        match c {
            CharacterType::Male(i, _) => {
                append(out, "male-");
                push_decimal(out, *i % p);
            },
            CharacterType::Female(i, _) => {
                append(out, "female-");
                push_decimal(out, *i % p);
            },
            CharacterType::Mob(i, _) => {
                append(out, "mob-");
                push_decimal(out, *i % p);
            },
            CharacterType::Custom(color, _) => {
                append(out, "custom-");
                append(out, color.as_str());
            },
        }
        assert(final(out)@ =~= old(out)@ + class_of(c@, self.palette()));
    }

    /// Appends text with the reserved characters escaped.
    fn write_text(out: &mut String, t: &str)
        ensures
            final(out)@ == old(out)@ + escape(t@),
    {
        let v = chars_of(t);
        let mut i: usize = 0;
        while i < v.len()
            invariant
                i <= v@.len(),
                v@ == t@,
                out@ == old(out)@ + escape(v@.subrange(0, i as int)),
            decreases v@.len() - i,
        {
            let c = v[i];
            if c == '<' {
                append(out, "&lt;");
            } else if c == '>' {
                append(out, "&gt;");
            } else if c == '&' {
                append(out, "&amp;");
            } else if c == '"' {
                append(out, "&quot;");
            } else {
                push_char(out, c);
            }
            proof {
                let next = v@.subrange(0, i + 1);
                assert(next.drop_last() =~= v@.subrange(0, i as int));
                assert(escape_char(c) == (if c == '<' {
                    "&lt;"@
                } else if c == '>' {
                    "&gt;"@
                } else if c == '&' {
                    "&amp;"@
                } else if c == '"' {
                    "&quot;"@
                } else {
                    seq![c]
                }));
                assert(out@ =~= old(out)@ + escape(next));
            }
            i = i + 1;
        }
        assert(v@.subrange(0, v@.len() as int) =~= v@);
    }
}

impl HtmlEmitter {
    fn write_wrapped(
        &self,
        out: &mut String,
        characters: &CharacterSet,
        open_tag: &str,
        children: &Vec<ElementNode>,
        close_tag: &str,
    ) -> (r: Result<(), HtmlEmitterError>)
        requires
            self.palette() > 0,
        ensures
            match wrap(
                open_tag@,
                html_nodes(nodes_view(children@), children@.len() as int, characters@, self.palette()),
                close_tag@,
            ) {
                Ok(s) => r is Ok && final(out)@ == old(out)@ + s,
                Err(x) => r matches Err(k) && k@ == x,
            },
        decreases children, 1int,
    {
        append(out, open_tag);
        match self.write_elements(out, characters, children) {
            Err(e) => Err(e),
            Ok(()) => {
                append(out, close_tag);
                proof {
                    let inner = html_nodes(nodes_view(children@), children@.len() as int, characters@, self.palette());
                    assert(final(out)@ =~= old(out)@ + (open_tag@ + inner->Ok_0 + close_tag@));
                }
                Ok(())
            },
        }
    }

    /// Appends the HTML of the nodes of `v`, one after another.
    fn write_elements(&self, out: &mut String, characters: &CharacterSet, v: &Vec<ElementNode>) -> (r:
        Result<(), HtmlEmitterError>)
        requires
            self.palette() > 0,
        ensures
            match html_nodes(nodes_view(v@), v@.len() as int, characters@, self.palette()) {
                Ok(s) => r is Ok && final(out)@ == old(out)@ + s,
                Err(x) => r matches Err(k) && k@ == x,
            },
        decreases v, 0int,
    {
        let ghost s = nodes_view(v@);
        let mut i: usize = 0;
        assert(old(out)@ =~= old(out)@ + Seq::<char>::empty());
        while i < v.len()
            invariant
                i <= v@.len(),
                s == nodes_view(v@),
                self.palette() > 0,
                html_nodes(s, i as int, characters@, self.palette()) matches Ok(a) && out@ == old(
                    out,
                )@ + a,
            decreases v@.len() - i,
        {
            let ghost before = out@;
            match self.write_element(out, characters, &v[i]) {
                Err(e) => {
                    proof {
                        assert(s[i as int] == node_view(v@[i as int]));
                        lemma_nodes_error(s, i as int + 1, v@.len() as int, characters@, self.palette());
                    }
                    return Err(e);
                },
                Ok(()) => {},
            }
            proof {
                assert(s[i as int] == node_view(v@[i as int]));
                let a = html_nodes(s, i as int, characters@, self.palette())->Ok_0;
                let b = html_node(s[i as int], characters@, self.palette())->Ok_0;
                assert(out@ =~= old(out)@ + (a + b));
            }
            i = i + 1;
        }
        Ok(())
    }

    /// Appends the HTML of the list items among the nodes of `v`.
    fn write_items(&self, out: &mut String, characters: &CharacterSet, v: &Vec<ElementNode>) -> (r:
        Result<(), HtmlEmitterError>)
        requires
            self.palette() > 0,
        ensures
            match html_items(nodes_view(v@), v@.len() as int, characters@, self.palette()) {
                Ok(s) => r is Ok && final(out)@ == old(out)@ + s,
                Err(x) => r matches Err(k) && k@ == x,
            },
    {
        let ghost s = nodes_view(v@);
        let mut i: usize = 0;
        assert(old(out)@ =~= old(out)@ + Seq::<char>::empty());
        while i < v.len()
            invariant
                i <= v@.len(),
                s == nodes_view(v@),
                self.palette() > 0,
                html_items(s, i as int, characters@, self.palette()) matches Ok(a) && out@ == old(
                    out,
                )@ + a,
            decreases v@.len() - i,
        {
            let e = &v[i];
            let item = match e {
                ElementNode::Surrounded { kind: Element::Item, .. } => true,
                _ => false,
            };
            proof {
                assert(s[i as int] == node_view(v@[i as int]));
                match e {
                    ElementNode::Surrounded { kind, parameters, children } => {
                        lemma_surrounded_view(*kind, *parameters, *children);
                    },
                    _ => {},
                }
            }
            if item {
                match self.write_element(out, characters, e) {
                    Err(x) => {
                        proof {
                            lemma_items_error(s, i as int + 1, v@.len() as int, characters@, self.palette());
                        }
                        return Err(x);
                    },
                    Ok(()) => {},
                }
                proof {
                    let a = html_items(s, i as int, characters@, self.palette())->Ok_0;
                    let b = html_node(s[i as int], characters@, self.palette())->Ok_0;
                    assert(out@ =~= old(out)@ + (a + b));
                }
            }
            i = i + 1;
        }
        Ok(())
    }

    /// Appends the HTML of one node.
    fn write_element(&self, out: &mut String, characters: &CharacterSet, element: &ElementNode) -> (r:
        Result<(), HtmlEmitterError>)
        requires
            self.palette() > 0,
        ensures
            match html_node(element@, characters@, self.palette()) {
                Ok(s) => r is Ok && final(out)@ == old(out)@ + s,
                Err(x) => r matches Err(k) && k@ == x,
            },
            element@ matches NodeModel::Surrounded { kind: ElementModel::Line(id, _), .. }
                && characters@.lookup(id) is None ==> final(out)@ == old(out)@,
        decreases element, 0int,
    {
        match element {
            ElementNode::Text(t) => {
                HtmlEmitter::write_text(out, t.as_str());
                Ok(())
            },
            ElementNode::Surrounded { kind, parameters, children } => {
                proof {
                    lemma_surrounded_view(*kind, *parameters, *children);
                }
                match kind {
                    Element::Line(id, style) => {
                        let c = match characters.get(id.as_str()) {
                            Some(c) => c,
                            None => {
                                return Err(HtmlEmitterError::UndefinedCharacter(id.clone()));
                            },
                        };
                        if *style == LineType::Inline {
                            append(out, "<span class=\"inline line ");
                            self.write_character_class(out, c);
                            let r = self.write_wrapped(out, characters, "\">", children, "</span>");
                            proof {
                                if r is Ok {
                                    assert(final(out)@ =~= old(out)@ + html_node(element@, characters@, self.palette())->Ok_0);
                                }
                            }
                            r
                        } else {
                            append(out, "\n<span class=\"line ");
                            self.write_character_class(out, c);
                            append(out, "\">");
                            if *style == LineType::NameShownBlock {
                                HtmlEmitter::write_text(out, c.display_name());
                            }
                            match self.write_elements(out, characters, children) {
                                Err(e) => {
                                    return Err(e);
                                },
                                Ok(()) => {},
                            }
                            append(out, "</span>\n");
                            proof {
                                assert(final(out)@ =~= old(out)@ + html_node(element@, characters@, self.palette())->Ok_0);
                            }
                            Ok(())
                        }
                    },
                    Element::Bold => self.write_wrapped(out, characters, "<strong>", children, "</strong>"),
                    Element::Italic => self.write_wrapped(out, characters, "<i>", children, "</i>"),
                    Element::Underlined => self.write_wrapped(
                        out,
                        characters,
                        "<span class=\"underline\">",
                        children,
                        "</span>",
                    ),
                    Element::Deleted => self.write_wrapped(out, characters, "<del>", children, "</del>"),
                    Element::Dotted => self.write_wrapped(
                        out,
                        characters,
                        "<span class=\"dots\">",
                        children,
                        "</span>",
                    ),
                    Element::Monospaced => self.write_wrapped(out, characters, "<code>", children, "</code>"),
                    Element::Item => self.write_wrapped(out, characters, "<li>", children, "</li>\n"),
                    Element::Link => {
                        let url = match HtmlEmitter::link_url(parameters) {
                            Ok(u) => u,
                            Err(e) => {
                                return Err(e);
                            },
                        };
                        append(out, "<a href=\"");
                        HtmlEmitter::write_text(out, url);
                        let r = self.write_wrapped(out, characters, "\">", children, "</a>");
                        proof {
                            if r is Ok {
                                assert(final(out)@ =~= old(out)@ + html_node(element@, characters@, self.palette())->Ok_0);
                            }
                        }
                        r
                    },
                    Element::Ruby => {
                        append(out, "<ruby>");
                        match self.write_elements(out, characters, children) {
                            Err(e) => {
                                return Err(e);
                            },
                            Ok(()) => {},
                        }
                        append(out, "<rp>(</rp><rt>");
                        if parameters.len() > 0 {
                            match self.write_element(out, characters, &parameters[0]) {
                                Err(e) => {
                                    return Err(e);
                                },
                                Ok(()) => {},
                            }
                        }
                        append(out, "</rt><rp>)</rp></ruby>");
                        proof {
                            assert(final(out)@ =~= old(out)@ + html_node(element@, characters@, self.palette())->Ok_0);
                        }
                        Ok(())
                    },
                    Element::Newline => {
                        append(out, "<br>\n");
                        Ok(())
                    },
                    Element::Parameter => self.write_elements(out, characters, children),
                }
            },
        }
    }

    /// The target of a link: the only text node of its first parameter.
    fn link_url(parameters: &Vec<ElementNode>) -> (r: Result<&str, HtmlEmitterError>)
        ensures
            match link_target(nodes_view(parameters@)) {
                Ok(u) => r matches Ok(s) && s@ == u,
                Err(x) => r matches Err(k) && k@ == x,
            },
    {
        if parameters.len() == 0 {
            return Err(HtmlEmitterError::InvalidParameter("Link URL needed".to_owned()));
        }
        let first = &parameters[0];
        proof {
            assert(nodes_view(parameters@)[0] == node_view(*first));
        }
        match first {
            ElementNode::Surrounded { kind: Element::Parameter, parameters: ps, children } => {
                proof {
                    lemma_surrounded_view(Element::Parameter, *ps, *children);
                }
                if children.len() == 1 {
                    match &children[0] {
                        ElementNode::Text(t) => {
                            return Ok(t.as_str());
                        },
                        _ => {},
                    }
                }
            },
            ElementNode::Surrounded { kind, parameters: ps, children } => {
                proof {
                    lemma_surrounded_view(*kind, *ps, *children);
                }
            },
            _ => {},
        }
        Err(
            HtmlEmitterError::InvalidParameter(
                "Only a plain text content is valid for link target".to_owned(),
            ),
        )
    }
}

impl HtmlEmitter {
    /// Appends the HTML of the block at position `i` of the document.
    fn write_block(&self, out: &mut String, characters: &CharacterSet, i: usize, block: &BlockNode) -> (r:
        Result<(), HtmlEmitterError>)
        requires
            self.palette() > 0,
        ensures
            match html_block(block@, i as nat, characters@, self.palette()) {
                Ok(s) => r is Ok && final(out)@ == old(out)@ + s,
                Err(x) => r matches Err(k) && k@ == x,
            },
    {
        match block.kind {
            Block::Paragraph => self.write_wrapped(out, characters, "<p>\n", &block.children, "\n</p>\n"),
            Block::Quotation => self.write_wrapped(
                out,
                characters,
                "<blockquote>\n",
                &block.children,
                "\n</blockquote>\n",
            ),
            Block::UnorderedList => {
                append(out, "<ul>\n");
                match self.write_items(out, characters, &block.children) {
                    Err(e) => {
                        return Err(e);
                    },
                    Ok(()) => {},
                }
                append(out, "\n</ul>\n");
                assert(final(out)@ =~= old(out)@ + html_block(block@, i as nat, characters@, self.palette())->Ok_0);
                Ok(())
            },
            Block::Section => {
                append(out, "<h2 id=\"section-");
                push_decimal(out, i);
                let r = self.write_wrapped(out, characters, "\">", &block.children, "</h2>\n");
                proof {
                    if r is Ok {
                        assert(final(out)@ =~= old(out)@ + html_block(block@, i as nat, characters@, self.palette())->Ok_0);
                    }
                }
                r
            },
            Block::Subsection => {
                append(out, "<h3 id=\"section-");
                push_decimal(out, i);
                let r = self.write_wrapped(out, characters, "\">", &block.children, "</h3>\n");
                proof {
                    if r is Ok {
                        assert(final(out)@ =~= old(out)@ + html_block(block@, i as nat, characters@, self.palette())->Ok_0);
                    }
                }
                r
            },
            Block::Horizontal => {
                append(out, "<hr>\n");
                Ok(())
            },
        }
    }

    /// Appends the `<style>` element with one rule per custom color character.
    fn write_character_styles(&self, out: &mut String, characters: &CharacterSet)
        ensures
            final(out)@ == old(out)@ + stylesheet(characters@),
    {
        let entries = characters.characters();
        let ghost e = characters@.entries;
        append(out, "<style>\n");
        let ghost start = out@;
        let mut i: usize = 0;
        assert(start =~= start + style_rules(e, 0));
        while i < entries.len()
            invariant
                i <= entries@.len(),
                entries_view(entries@) == e,
                out@ == start + style_rules(e, i as int),
            decreases entries@.len() - i,
        {
            match &entries[i].1 {
                CharacterType::Custom(color, _) => {
                    append(out, ".custom-");
                    append(out, color.as_str());
                    append(out, " { color: #");
                    append(out, color.as_str());
                    append(out, "; }\n");
                },
                _ => {},
            }
            proof {
                assert(e[i as int] == (entries@[i as int].0@, entries@[i as int].1@));
                assert(out@ =~= start + style_rules(e, i + 1));
            }
            i = i + 1;
        }
        append(out, "</style>\n");
        assert(e.len() == entries@.len());
        assert(final(out)@ =~= old(out)@ + stylesheet(characters@));
    }

    /// Renders a whole document: the stylesheet, then every block. Rendering stops at the first
    /// error.
    pub fn emit(&self, document: &Document) -> (r: Result<String, HtmlEmitterError>)
        ensures
            self.palette() > 0,
            match html_document(document@, self.palette()) {
                Ok(s) => r matches Ok(h) && h@ == s,
                Err(x) => r matches Err(k) && k@ == x,
            },
    {
        proof {
            use_type_invariant(self);
        }
        let mut out = String::new();
        self.write_character_styles(&mut out, &document.characters);
        let ghost start = out@;
        let ghost bs = document@.blocks;
        let mut i: usize = 0;
        assert(start =~= start + Seq::<char>::empty());
        while i < document.blocks.len()
            invariant
                i <= document.blocks@.len(),
                bs == document@.blocks,
                self.palette() > 0,
                html_blocks(bs, i as int, document.characters@, self.palette()) matches Ok(a) && out@
                    == start + a,
            decreases document.blocks@.len() - i,
        {
            match self.write_block(&mut out, &document.characters, i, &document.blocks[i]) {
                Err(e) => {
                    proof {
                        lemma_blocks_error(bs, i as int + 1, bs.len() as int, document.characters@, self.palette());
                    }
                    return Err(e);
                },
                Ok(()) => {},
            }
            proof {
                let a = html_blocks(bs, i as int, document.characters@, self.palette())->Ok_0;
                let b = html_block(bs[i as int], i as nat, document.characters@, self.palette())->Ok_0;
                assert(out@ =~= start + (a + b));
            }
            i = i + 1;
        }
        assert(out@ =~= stylesheet(document.characters@) + html_blocks(bs, bs.len() as int, document.characters@, self.palette())->Ok_0);
        Ok(out)
    }
}

pub proof fn lemma_blocks_error(bs: Seq<BlockModel>, k: int, j: int, reg: RegistryModel, palette: nat)
    requires
        0 < k <= j <= bs.len(),
        html_blocks(bs, k, reg, palette) is Err,
    ensures
        html_blocks(bs, j, reg, palette) == html_blocks(bs, k, reg, palette),
    decreases j - k,
{
    if j > k {
        lemma_blocks_error(bs, k, j - 1, reg, palette);
    }
}

// Index extractor

/// Represents an anchor in HTML formatted document.
pub struct HtmlAnchor {
    /// Title
    pub title: String,
    /// Anchor id attribute
    pub id: String,
}

pub open spec fn is_heading(k: Block) -> bool {
    k == Block::Section || k == Block::Subsection
}

/// The position of the first heading block at or after `p`, or the number of blocks.
pub open spec fn next_heading(kinds: Seq<Block>, p: int) -> int
    decreases kinds.len() - p,
{
    if p < 0 || p >= kinds.len() {
        kinds.len() as int
    } else if is_heading(kinds[p]) {
        p
    } else {
        next_heading(kinds, p + 1)
    }
}

proof fn lemma_next_heading(kinds: Seq<Block>, p: int)
    requires
        0 <= p <= kinds.len(),
    ensures
        p <= next_heading(kinds, p) <= kinds.len(),
    decreases kinds.len() - p,
{
    if p < kinds.len() && !is_heading(kinds[p]) {
        lemma_next_heading(kinds, p + 1);
    }
}

/// Lists the anchors of section and subsection headings, in document order. Each call of
/// `HtmlEmitter::indices` starts a new listing.
pub struct HtmlAnchorIter {
    kinds: Vec<Block>,
    position: usize,
}

impl HtmlAnchorIter {
    /// The kinds of the blocks that the listing walks.
    pub closed spec fn kinds(&self) -> Seq<Block> {
        self.kinds@
    }

    /// Where the listing goes on from.
    pub closed spec fn position(&self) -> nat {
        self.position as nat
    }

    /// The anchor of the next heading, if any: `section-N` for the heading at position `N`.
    pub fn next(&mut self) -> (r: Option<HtmlAnchor>)
        requires
            old(self).position() <= old(self).kinds().len(),
        ensures
            final(self).kinds() == old(self).kinds(),
            final(self).position() <= final(self).kinds().len(),
            ({
                let j = next_heading(old(self).kinds(), old(self).position() as int);
                if j < old(self).kinds().len() {
                    r matches Some(a) && a.id@ == "section-"@ + decimal(j as nat) && a.title@
                        == Seq::<char>::empty() && final(self).position() == j + 1
                } else {
                    r is None && final(self).position() == old(self).kinds().len()
                }
            }),
    {
        proof {
            lemma_next_heading(self.kinds@, self.position as int);
        }
        while self.position < self.kinds.len()
            invariant
                self.kinds@ == old(self).kinds@,
                old(self).position <= self.position <= self.kinds@.len(),
                next_heading(self.kinds@, old(self).position as int) == next_heading(
                    self.kinds@,
                    self.position as int,
                ),
            decreases self.kinds@.len() - self.position,
        {
            let k = self.kinds[self.position];
            if k == Block::Section || k == Block::Subsection {
                let mut id = "section-".to_owned();
                push_decimal(&mut id, self.position);
                self.position = self.position + 1;
                return Some(HtmlAnchor { title: String::new(), id });
            }
            self.position = self.position + 1;
        }
        None
    }
}

impl HtmlEmitter {
    /// Returns a listing of the anchors of the document's headings.
    pub fn indices(&self, document: &Document) -> (r: HtmlAnchorIter)
        ensures
            r.kinds() == document@.blocks.map_values(|b: BlockModel| b.kind),
            r.position() == 0,
    {
        let mut kinds: Vec<Block> = Vec::new();
        let mut i: usize = 0;
        while i < document.blocks.len()
            invariant
                i <= document.blocks@.len(),
                kinds@ == document@.blocks.subrange(0, i as int).map_values(|b: BlockModel| b.kind),
            decreases document.blocks@.len() - i,
        {
            kinds.push(document.blocks[i].kind);
            i = i + 1;
            assert(kinds@ =~= document@.blocks.subrange(0, i as int).map_values(|b: BlockModel| b.kind));
        }
        assert(document@.blocks.subrange(0, i as int) =~= document@.blocks);
        HtmlAnchorIter { kinds, position: 0 }
    }
}

/// The message of a rendering error.
pub open spec fn html_error_message(e: HtmlErrorModel) -> Seq<char> {
    match e {
        HtmlErrorModel::UndefinedCharacter(c) => "Undefined character: "@ + c,
        HtmlErrorModel::InvalidParameter(p) => "Invalid parameter: "@ + p,
    }
}

impl HtmlEmitterError {
    /// The message of this error.
    pub fn message(&self) -> (r: String)
        ensures
            r@ == html_error_message(self@),
    {
        let mut out = String::new();
        match self {
            HtmlEmitterError::UndefinedCharacter(c) => {
                append(&mut out, "Undefined character: ");
                append(&mut out, c.as_str());
            },
            HtmlEmitterError::InvalidParameter(p) => {
                append(&mut out, "Invalid parameter: ");
                append(&mut out, p.as_str());
            },
        }
        assert(out@ =~= html_error_message(self@));
        out
    }
}

// Rendering parsed documents ----------------------------------------------------

pub open spec fn undefined_character(r: Result<Seq<char>, HtmlErrorModel>) -> bool {
    r matches Err(HtmlErrorModel::UndefinedCharacter(_))
}

/// A node that names only registered characters renders without an undefined character.
pub proof fn lemma_known_node_renders(e: NodeModel, reg: RegistryModel, palette: nat)
    requires
        unknown_in_node(e, reg) is None,
    ensures
        !undefined_character(html_node(e, reg, palette)),
    decreases e, 0int,
{
    if let NodeModel::Surrounded { kind, parameters, children } = e {
        lemma_known_nodes_render(children, children.len() as int, reg, palette);
        if parameters.len() > 0 {
            lemma_unknown_each(parameters, parameters.len() as int, reg);
            lemma_known_node_renders(parameters[0], reg, palette);
        }
    }
}

pub proof fn lemma_known_nodes_render(s: Seq<NodeModel>, i: int, reg: RegistryModel, palette: nat)
    requires
        unknown_in_nodes(s, i, reg) is None,
    ensures
        !undefined_character(html_nodes(s, i, reg, palette)),
    decreases s, i,
{
    if 0 < i <= s.len() {
        lemma_known_nodes_render(s, i - 1, reg, palette);
        lemma_known_node_renders(s[i - 1], reg, palette);
    }
}

proof fn lemma_known_items_render(s: Seq<NodeModel>, i: int, reg: RegistryModel, palette: nat)
    requires
        0 <= i <= s.len(),
        unknown_in_nodes(s, i, reg) is None,
    ensures
        !undefined_character(html_items(s, i, reg, palette)),
    decreases i,
{
    if 0 < i {
        lemma_known_items_render(s, i - 1, reg, palette);
        lemma_known_node_renders(s[i - 1], reg, palette);
    }
}

proof fn lemma_known_blocks_render(bs: Seq<BlockModel>, i: int, reg: RegistryModel, palette: nat)
    requires
        0 <= i <= bs.len(),
        lines_known(bs, reg),
    ensures
        !undefined_character(html_blocks(bs, i, reg, palette)),
    decreases i,
{
    if 0 < i {
        lemma_known_blocks_render(bs, i - 1, reg, palette);
        let b = bs[i - 1];
        assert(block_known(b, reg));
        lemma_known_nodes_render(b.children, b.children.len() as int, reg, palette);
        lemma_known_items_render(b.children, b.children.len() as int, reg, palette);
    }
}

/// A parsed document never fails to render for want of a registered character.
pub proof fn parsed_documents_render_every_character(s: Seq<char>, palette: nat)
    ensures
        parse_document(s) matches Ok(d) ==> !undefined_character(html_document(d, palette)),
{
    parsed_documents_name_registered_characters(s);
    if let Ok(d) = parse_document(s) {
        lemma_known_blocks_render(d.blocks, d.blocks.len() as int, d.characters, palette);
    }
}

} // verus!
