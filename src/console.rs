//! The renderer for virtual terminals: colored, styled text with ANSI escape codes.
use vstd::prelude::*;

use ansi_term::{Colour, Style};

use crate::document::{
    lemma_surrounded_view, node_view, nodes_view, Block, BlockModel, BlockNode, CharacterModel,
    CharacterSet, CharacterType, Document, Element, ElementModel, ElementNode, LineType, NodeModel,
    RegistryModel,
};
use crate::text::{chars_of, decimal, is_hex, is_hex_spec};

verus! {

/// A terminal color.
#[derive(PartialEq, Eq, Structural, Clone, Copy, Debug)]
pub enum TermColor {
    White,
    Yellow,
    /// One of the 256 indexed colors.
    Fixed(u8),
    Rgb(u8, u8, u8),
}

/// A terminal style: a foreground color and text attributes.
#[derive(PartialEq, Eq, Structural, Clone, Copy, Debug)]
pub struct TermStyle {
    pub color: TermColor,
    pub bold: bool,
    pub italic: bool,
    pub underline: bool,
    pub strikethrough: bool,
    pub blink: bool,
}

/// The SGR code of a foreground color.
pub open spec fn color_code(c: TermColor) -> Seq<char> {
    match c {
        TermColor::White => "37"@,
        TermColor::Yellow => "33"@,
        TermColor::Fixed(n) => "38;5;"@ + decimal(n as nat),
        TermColor::Rgb(r, g, b) => "38;2;"@ + decimal(r as nat) + ";"@ + decimal(g as nat) + ";"@
            + decimal(b as nat),
    }
}

pub open spec fn flag_code(on: bool, code: Seq<char>) -> Seq<char> {
    if on {
        code + ";"@
    } else {
        Seq::empty()
    }
}

/// The SGR codes of a style: its attributes in the order bold, italic, underline, blink,
/// strikethrough, then its foreground color, separated by `;`.
pub open spec fn style_codes(s: TermStyle) -> Seq<char> {
    flag_code(s.bold, "1"@) + flag_code(s.italic, "3"@) + flag_code(s.underline, "4"@) + flag_code(
        s.blink,
        "5"@,
    ) + flag_code(s.strikethrough, "9"@) + color_code(s.color)
}

/// What `text` looks like on a terminal in `style`: the style's escape sequence, the text, and
/// the reset sequence.
#[verifier::opaque]
pub open spec fn painted(style: TermStyle, text: Seq<char>) -> Seq<char> {
    "\x1b["@ + style_codes(style) + "m"@ + text + "\x1b[0m"@
}

/// Relies on ansi_term's `Style::paint` and the `Display` of the painted string: since the
/// foreground is always set, the style is never plain, so the output is the prefix `ESC[`, the
/// attribute codes and the foreground code joined by `;`, `m`, the text, and `ESC[0m`.
#[verifier::external_body]
fn paint(style: TermStyle, text: &str) -> (r: String)
    ensures
        r@ == painted(style, text@),
{
    let foreground = match style.color {
        TermColor::White => Colour::White,
        TermColor::Yellow => Colour::Yellow,
        TermColor::Fixed(n) => Colour::Fixed(n),
        TermColor::Rgb(r, g, b) => Colour::RGB(r, g, b),
    };
    let s = Style { foreground: Some(foreground), is_bold: style.bold, is_italic: style.italic,
        is_underline: style.underline, is_blink: style.blink,
        is_strikethrough: style.strikethrough, ..Style::new() };
    s.paint(text).to_string()
}

/// A text attribute on the style stack.
#[derive(PartialEq, Eq, Structural, Clone, Copy, Debug)]
pub enum StackStyle {
    Bold,
    Italic,
    Underlined,
    Striked,
    Blink,
}

/// An entry of the style stack: an attribute or a color.
#[derive(PartialEq, Eq, Structural, Clone, Copy, Debug)]
pub enum AbstractStyle {
    Style(StackStyle),
    Color(TermColor),
}

/// What the last output did to the current line.
#[derive(PartialEq, Eq, Structural, Clone, Copy, Debug)]
pub enum NewlineState {
    /// Text was written on the current line.
    InUse,
    /// A line was just ended.
    Ready,
    /// A paragraph was just ended.
    NewParagraph,
}

pub open spec fn plain_style() -> TermStyle {
    TermStyle {
        color: TermColor::White,
        bold: false,
        italic: false,
        underline: false,
        strikethrough: false,
        blink: false,
    }
}

/// The style in effect: the last color on the stack (white if none) with every attribute on it.
pub open spec fn style_of(stack: Seq<AbstractStyle>) -> TermStyle
    decreases stack.len(),
{
    if stack.len() == 0 {
        plain_style()
    } else {
        let s = style_of(stack.drop_last());
        match stack.last() {
            AbstractStyle::Color(c) => TermStyle { color: c, ..s },
            AbstractStyle::Style(StackStyle::Bold) => TermStyle { bold: true, ..s },
            AbstractStyle::Style(StackStyle::Italic) => TermStyle { italic: true, ..s },
            AbstractStyle::Style(StackStyle::Underlined) => TermStyle { underline: true, ..s },
            AbstractStyle::Style(StackStyle::Striked) => TermStyle { strikethrough: true, ..s },
            AbstractStyle::Style(StackStyle::Blink) => TermStyle { blink: true, ..s },
        }
    }
}

/// The output so far and the renderer's state.
pub struct ConsoleRun {
    pub out: Seq<char>,
    pub stack: Seq<AbstractStyle>,
    pub line: NewlineState,
}

/// Ends the current paragraph, writing at most one blank line.
pub open spec fn confirm_paragraph(r: ConsoleRun) -> ConsoleRun {
    let written = match r.line {
        NewlineState::InUse => "\n\n"@,
        NewlineState::Ready => "\n"@,
        NewlineState::NewParagraph => Seq::empty(),
    };
    ConsoleRun { out: r.out + written, line: NewlineState::NewParagraph, ..r }
}

/// Ends the current line unless it is already ended.
pub open spec fn confirm_newline(r: ConsoleRun) -> ConsoleRun {
    let written = match r.line {
        NewlineState::InUse => "\n"@,
        _ => Seq::empty(),
    };
    ConsoleRun { out: r.out + written, line: NewlineState::Ready, ..r }
}

pub open spec fn text_out(r: ConsoleRun, t: Seq<char>) -> ConsoleRun {
    ConsoleRun { out: r.out + painted(style_of(r.stack), t), line: NewlineState::InUse, ..r }
}

pub open spec fn push_style(r: ConsoleRun, s: AbstractStyle) -> ConsoleRun {
    ConsoleRun { stack: r.stack.push(s), ..r }
}

pub open spec fn pop_style(r: ConsoleRun) -> ConsoleRun {
    ConsoleRun { stack: r.stack.drop_last(), ..r }
}

/// The palette of preset characters of a kind, indexed by ordinal modulo 4.
pub open spec fn palette_color(base: Seq<u8>, i: nat) -> TermColor {
    TermColor::Fixed(base[(i % 4) as int])
}

pub open spec fn male_colors() -> Seq<u8> {
    seq![26u8, 80u8, 74u8, 62u8]
}

pub open spec fn female_colors() -> Seq<u8> {
    seq![170u8, 179u8, 209u8, 229u8]
}

pub open spec fn mob_colors() -> Seq<u8> {
    seq![195u8, 230u8, 153u8, 158u8]
}

/// The value of a hexadecimal digit.
pub open spec fn hex_value(c: char) -> nat {
    if '0' <= c && c <= '9' {
        (c as nat - '0' as nat) as nat
    } else if 'a' <= c && c <= 'f' {
        (c as nat - 'a' as nat + 10) as nat
    } else {
        (c as nat - 'A' as nat + 10) as nat
    }
}

/// One channel of a 3-digit color: the digit times 17 (7 for a digit that is not hexadecimal).
pub open spec fn short_channel(c: char) -> u8 {
    (if is_hex_spec(c) { hex_value(c) * 17 } else { 7 * 17 }) as u8
}

/// One channel of a 6-digit color: two digits (127 unless both are hexadecimal).
pub open spec fn long_channel(a: char, b: char) -> u8 {
    (if is_hex_spec(a) && is_hex_spec(b) { hex_value(a) * 16 + hex_value(b) } else { 127 }) as u8
}

/// The color of a color code of 3 or 6 hexadecimal digits.
pub open spec fn rgb_of(cc: Seq<char>) -> TermColor {
    if cc.len() == 3 {
        TermColor::Rgb(short_channel(cc[0]), short_channel(cc[1]), short_channel(cc[2]))
    } else if cc.len() == 6 {
        TermColor::Rgb(long_channel(cc[0], cc[1]), long_channel(cc[2], cc[3]), long_channel(cc[4], cc[5]))
    } else {
        TermColor::Rgb(127, 127, 127)
    }
}

/// The color and the name shown for a speech line of a character.
pub open spec fn speaker_of(c: Option<CharacterModel>) -> (TermColor, Seq<char>) {
    match c {
        Some(CharacterModel::Male(i, n)) => (palette_color(male_colors(), i), n),
        Some(CharacterModel::Female(i, n)) => (palette_color(female_colors(), i), n),
        Some(CharacterModel::Mob(i, n)) => (palette_color(mob_colors(), i), n),
        Some(CharacterModel::Custom(cc, n)) => (rgb_of(cc), n),
        None => (TermColor::Fixed(249), "[Undefined]"@),
    }
}

pub open spec fn styled(r: ConsoleRun, s: AbstractStyle, children: Seq<NodeModel>, reg: RegistryModel) -> ConsoleRun
    decreases children, 1int,
{
    pop_style(console_nodes(push_style(r, s), children, children.len() as int, reg))
}

/// The output of a node.
pub open spec fn console_node(r: ConsoleRun, e: NodeModel, reg: RegistryModel) -> ConsoleRun
    decreases e, 2int,
{
    match e {
        NodeModel::Text(t) => text_out(r, t),
        NodeModel::Surrounded { kind, parameters, children } => match kind {
            ElementModel::Bold => styled(r, AbstractStyle::Style(StackStyle::Bold), children, reg),
            ElementModel::Italic => styled(r, AbstractStyle::Style(StackStyle::Italic), children, reg),
            ElementModel::Underlined => styled(
                r,
                AbstractStyle::Style(StackStyle::Underlined),
                children,
                reg,
            ),
            ElementModel::Deleted => styled(r, AbstractStyle::Style(StackStyle::Striked), children, reg),
            ElementModel::Dotted => styled(r, AbstractStyle::Style(StackStyle::Blink), children, reg),
            ElementModel::Ruby | ElementModel::Link => {
                let r1 = console_nodes(r, children, children.len() as int, reg);
                let r2 = console_nodes(text_out(r1, "("@), parameters, parameters.len() as int, reg);
                text_out(r2, ")"@)
            },
            ElementModel::Item => {
                let r1 = text_out(confirm_newline(r), "・"@);
                confirm_newline(console_nodes(r1, children, children.len() as int, reg))
            },
            ElementModel::Newline => ConsoleRun { out: r.out + "\n"@, ..r },
            ElementModel::Line(id, style) => {
                let (color, name) = speaker_of(reg.lookup(id));
                if style == LineType::Inline {
                    styled(r, AbstractStyle::Color(color), children, reg)
                } else {
                    let r1 = push_style(confirm_newline(r), AbstractStyle::Color(color));
                    let r2 = if style == LineType::NameShownBlock {
                        text_out(r1, name)
                    } else {
                        r1
                    };
                    confirm_newline(pop_style(console_nodes(r2, children, children.len() as int, reg)))
                }
            },
            ElementModel::Monospaced | ElementModel::Parameter => console_nodes(
                r,
                children,
                children.len() as int,
                reg,
            ),
        },
    }
}

/// The output of the first `i` nodes of `s`, one after another.
pub open spec fn console_nodes(r: ConsoleRun, s: Seq<NodeModel>, i: int, reg: RegistryModel) -> ConsoleRun
    decreases s, 0int, i,
{
    if i <= 0 || i > s.len() {
        r
    } else {
        console_node(console_nodes(r, s, i - 1, reg), s[i - 1], reg)
    }
}

/// Rendering a node leaves the style stack as it found it.
pub proof fn lemma_node_stack(r: ConsoleRun, e: NodeModel, reg: RegistryModel)
    ensures
        console_node(r, e, reg).stack == r.stack,
    decreases e, 2int,
{
    match e {
        NodeModel::Text(_) => {},
        NodeModel::Surrounded { kind, parameters, children } => {
            let n = children.len() as int;
            match kind {
                ElementModel::Bold | ElementModel::Italic | ElementModel::Underlined
                | ElementModel::Deleted | ElementModel::Dotted => {
                    lemma_styled_stack(r, AbstractStyle::Style(StackStyle::Bold), children, reg);
                    lemma_styled_stack(r, AbstractStyle::Style(StackStyle::Italic), children, reg);
                    lemma_styled_stack(r, AbstractStyle::Style(StackStyle::Underlined), children, reg);
                    lemma_styled_stack(r, AbstractStyle::Style(StackStyle::Striked), children, reg);
                    lemma_styled_stack(r, AbstractStyle::Style(StackStyle::Blink), children, reg);
                },
                ElementModel::Ruby | ElementModel::Link => {
                    let r1 = console_nodes(r, children, n, reg);
                    lemma_nodes_stack(r, children, n, reg);
                    lemma_nodes_stack(text_out(r1, "("@), parameters, parameters.len() as int, reg);
                },
                ElementModel::Item => {
                    let r1 = text_out(confirm_newline(r), "・"@);
                    lemma_nodes_stack(r1, children, n, reg);
                },
                ElementModel::Newline => {},
                ElementModel::Line(id, style) => {
                    let (color, name) = speaker_of(reg.lookup(id));
                    lemma_styled_stack(r, AbstractStyle::Color(color), children, reg);
                    let r1 = push_style(confirm_newline(r), AbstractStyle::Color(color));
                    let r2 = if style == LineType::NameShownBlock {
                        text_out(r1, name)
                    } else {
                        r1
                    };
                    lemma_nodes_stack(r2, children, n, reg);
                    assert(r.stack.push(AbstractStyle::Color(color)).drop_last() =~= r.stack);
                },
                ElementModel::Monospaced | ElementModel::Parameter => {
                    lemma_nodes_stack(r, children, n, reg);
                },
            }
        },
    }
}

pub proof fn lemma_styled_stack(r: ConsoleRun, s: AbstractStyle, children: Seq<NodeModel>, reg: RegistryModel)
    ensures
        styled(r, s, children, reg).stack == r.stack,
    decreases children, 1int,
{
    lemma_nodes_stack(push_style(r, s), children, children.len() as int, reg);
    assert(r.stack.push(s).drop_last() =~= r.stack);
}

pub proof fn lemma_nodes_stack(r: ConsoleRun, s: Seq<NodeModel>, i: int, reg: RegistryModel)
    ensures
        console_nodes(r, s, i, reg).stack == r.stack,
    decreases s, 0int, i,
{
    if 0 < i <= s.len() {
        lemma_nodes_stack(r, s, i - 1, reg);
        lemma_node_stack(console_nodes(r, s, i - 1, reg), s[i - 1], reg);
    }
}

/// The output of a block.
pub open spec fn console_block(r: ConsoleRun, b: BlockModel, reg: RegistryModel) -> ConsoleRun {
    let n = b.children.len() as int;
    match b.kind {
        Block::Section => {
            let r1 = push_style(confirm_paragraph(r), AbstractStyle::Color(TermColor::Yellow));
            let r2 = console_nodes(text_out(r1, "###### "@), b.children, n, reg);
            confirm_paragraph(pop_style(text_out(r2, " ######"@)))
        },
        Block::Subsection => {
            let r1 = push_style(confirm_paragraph(r), AbstractStyle::Color(TermColor::Yellow));
            let r2 = console_nodes(text_out(r1, "====== "@), b.children, n, reg);
            confirm_paragraph(pop_style(text_out(r2, " ======"@)))
        },
        Block::Horizontal => {
            let r1 = confirm_paragraph(r);
            confirm_paragraph(ConsoleRun { out: r1.out + rule(), line: NewlineState::Ready, ..r1 })
        },
        Block::Quotation => {
            let r1 = push_style(
                confirm_newline(confirm_paragraph(r)),
                AbstractStyle::Color(TermColor::Rgb(127, 127, 127)),
            );
            confirm_paragraph(pop_style(console_nodes(r1, b.children, n, reg)))
        },
        _ => confirm_paragraph(console_nodes(confirm_paragraph(r), b.children, n, reg)),
    }
}

/// A horizontal rule: 80 dashes and a line feed.
pub open spec fn rule() -> Seq<char> {
    Seq::new(80, |i: int| '-').push('\n')
}

/// The output of the first `i` blocks.
pub open spec fn console_blocks(r: ConsoleRun, bs: Seq<BlockModel>, i: int, reg: RegistryModel) -> ConsoleRun
    decreases i,
{
    if i <= 0 || i > bs.len() {
        r
    } else {
        console_block(console_blocks(r, bs, i - 1, reg), bs[i - 1], reg)
    }
}

/// Emitter for virtual terminal.
pub struct ConsoleEmitter {
    style_stack: Vec<AbstractStyle>,
    newline_state: NewlineState,
}

fn append(out: &mut String, s: &str)
    ensures
        final(out)@ == old(out)@ + s@,
{
    out.append(s);
}

fn hex_digit_value(c: char) -> (r: u8)
    requires
        is_hex_spec(c),
    ensures
        r as nat == hex_value(c),
        r < 16,
{
    let u = c as u32;
    if '0' <= c && c <= '9' {
        (u - ('0' as u32)) as u8
    } else if 'a' <= c && c <= 'f' {
        (u - ('a' as u32) + 10) as u8
    } else {
        (u - ('A' as u32) + 10) as u8
    }
}

fn short_channel_of(c: char) -> (r: u8)
    ensures
        r == short_channel(c),
{
    if is_hex(c) {
        hex_digit_value(c) * 17
    } else {
        7 * 17
    }
}

fn long_channel_of(a: char, b: char) -> (r: u8)
    ensures
        r == long_channel(a, b),
{
    if is_hex(a) && is_hex(b) {
        hex_digit_value(a) * 16 + hex_digit_value(b)
    } else {
        127
    }
}

fn rgb_of_code(code: &str) -> (r: TermColor)
    ensures
        r == rgb_of(code@),
{
    let cc = chars_of(code);
    if cc.len() == 3 {
        TermColor::Rgb(short_channel_of(cc[0]), short_channel_of(cc[1]), short_channel_of(cc[2]))
    } else if cc.len() == 6 {
        TermColor::Rgb(
            long_channel_of(cc[0], cc[1]),
            long_channel_of(cc[2], cc[3]),
            long_channel_of(cc[4], cc[5]),
        )
    } else {
        TermColor::Rgb(127, 127, 127)
    }
}

fn palette_entry(i: usize, a: u8, b: u8, c: u8, d: u8) -> (r: TermColor)
    ensures
        r == palette_color(seq![a, b, c, d], i as nat),
{
    let k = i % 4;
    let v = if k == 0 { a } else if k == 1 { b } else if k == 2 { c } else { d };
    TermColor::Fixed(v)
}

pub open spec fn opt_character(c: Option<&CharacterType>) -> Option<CharacterModel> {
    match c {
        Some(t) => Some(t@),
        None => None,
    }
}

impl ConsoleEmitter {
    pub fn new() -> (r: ConsoleEmitter)
        ensures
            r.stack() == Seq::<AbstractStyle>::empty(),
            r.line() == NewlineState::NewParagraph,
    {
        ConsoleEmitter { style_stack: Vec::new(), newline_state: NewlineState::NewParagraph }
    }

    /// The style stack.
    pub closed spec fn stack(&self) -> Seq<AbstractStyle> {
        self.style_stack@
    }

    /// What the last output did to the current line.
    pub closed spec fn line(&self) -> NewlineState {
        self.newline_state
    }

    pub open spec fn run_with(&self, out: Seq<char>) -> ConsoleRun {
        ConsoleRun { out, stack: self.stack(), line: self.line() }
    }

    fn current_style(&self) -> (r: TermStyle)
        ensures
            r == style_of(self.stack()),
    {
        let mut s = TermStyle {
            color: TermColor::White,
            bold: false,
            italic: false,
            underline: false,
            strikethrough: false,
            blink: false,
        };
        let mut i: usize = 0;
        assert(self.style_stack@.subrange(0, 0) =~= Seq::<AbstractStyle>::empty());
        while i < self.style_stack.len()
            invariant
                i <= self.style_stack@.len(),
                s == style_of(self.style_stack@.subrange(0, i as int)),
            decreases self.style_stack@.len() - i,
        {
            proof {
                assert(self.style_stack@.subrange(0, i + 1).drop_last() =~= self.style_stack@.subrange(0, i as int));
            }
            match self.style_stack[i] {
                AbstractStyle::Color(c) => {
                    s.color = c;
                },
                AbstractStyle::Style(StackStyle::Bold) => {
                    s.bold = true;
                },
                AbstractStyle::Style(StackStyle::Italic) => {
                    s.italic = true;
                },
                AbstractStyle::Style(StackStyle::Underlined) => {
                    s.underline = true;
                },
                AbstractStyle::Style(StackStyle::Striked) => {
                    s.strikethrough = true;
                },
                AbstractStyle::Style(StackStyle::Blink) => {
                    s.blink = true;
                },
            }
            i = i + 1;
        }
        assert(self.style_stack@.subrange(0, i as int) =~= self.style_stack@);
        s
    }

    fn get_color<'c>(&self, character: Option<&'c CharacterType>) -> (r: (TermColor, &'c str))
        ensures
            r.0 == speaker_of(opt_character(character)).0,
            r.1@ == speaker_of(opt_character(character)).1,
    {
        match character {
            Some(CharacterType::Male(i, n)) => (palette_entry(*i, 26, 80, 74, 62), n.as_str()),
            Some(CharacterType::Female(i, n)) => (palette_entry(*i, 170, 179, 209, 229), n.as_str()),
            Some(CharacterType::Mob(i, n)) => (palette_entry(*i, 195, 230, 153, 158), n.as_str()),
            Some(CharacterType::Custom(cc, n)) => (rgb_of_code(cc.as_str()), n.as_str()),
            None => (TermColor::Fixed(249), "[Undefined]"),
        }
    }

    fn confirm_paragraph(&mut self, out: &mut String)
        ensures
            final(self).run_with(final(out)@) == confirm_paragraph(old(self).run_with(old(out)@)),
    {
        match self.newline_state {
            NewlineState::InUse => append(out, "\n\n"),
            NewlineState::Ready => append(out, "\n"),
            NewlineState::NewParagraph => {
                assert(out@ =~= out@ + Seq::<char>::empty());
            },
        }
        self.newline_state = NewlineState::NewParagraph;
    }

    fn confirm_newline(&mut self, out: &mut String)
        ensures
            final(self).run_with(final(out)@) == confirm_newline(old(self).run_with(old(out)@)),
    {
        match self.newline_state {
            NewlineState::InUse => append(out, "\n"),
            _ => {
                assert(out@ =~= out@ + Seq::<char>::empty());
            },
        }
        self.newline_state = NewlineState::Ready;
    }

    fn write_text(&mut self, out: &mut String, t: &str)
        ensures
            final(self).run_with(final(out)@) == text_out(old(self).run_with(old(out)@), t@),
    {
        let p = paint(self.current_style(), t);
        append(out, p.as_str());
        self.newline_state = NewlineState::InUse;
    }

    fn emit_elements(&mut self, out: &mut String, characters: &CharacterSet, v: &Vec<ElementNode>)
        ensures
            final(self).run_with(final(out)@) == console_nodes(
                old(self).run_with(old(out)@),
                nodes_view(v@),
                v@.len() as int,
                characters@,
            ),
        decreases v, 0int,
    {
        let ghost s = nodes_view(v@);
        let ghost start = self.run_with(out@);
        let mut i: usize = 0;
        while i < v.len()
            invariant
                i <= v@.len(),
                s == nodes_view(v@),
                start == old(self).run_with(old(out)@),
                self.run_with(out@) == console_nodes(start, s, i as int, characters@),
            decreases v@.len() - i,
        {
            self.emit_element(out, characters, &v[i]);
            proof {
                assert(s[i as int] == node_view(v@[i as int]));
            }
            i = i + 1;
        }
    }

    fn emit_styled(
        &mut self,
        out: &mut String,
        characters: &CharacterSet,
        st: AbstractStyle,
        children: &Vec<ElementNode>,
    )
        ensures
            final(self).run_with(final(out)@) == styled(
                old(self).run_with(old(out)@),
                st,
                nodes_view(children@),
                characters@,
            ),
        decreases children, 1int,
    {
        self.style_stack.push(st);
        proof {
            lemma_nodes_stack(self.run_with(out@), nodes_view(children@), children@.len() as int, characters@);
        }
        self.emit_elements(out, characters, children);
        self.style_stack.pop();
    }

    fn emit_element(&mut self, out: &mut String, characters: &CharacterSet, element: &ElementNode)
        ensures
            final(self).run_with(final(out)@) == console_node(
                old(self).run_with(old(out)@),
                element@,
                characters@,
            ),
        decreases element, 2int,
    {
        match element {
            ElementNode::Text(t) => self.write_text(out, t.as_str()),
            ElementNode::Surrounded { kind, parameters, children } => {
                proof {
                    lemma_surrounded_view(*kind, *parameters, *children);
                }
                match kind {
                    Element::Bold => self.emit_styled(
                        out,
                        characters,
                        AbstractStyle::Style(StackStyle::Bold),
                        children,
                    ),
                    Element::Italic => self.emit_styled(
                        out,
                        characters,
                        AbstractStyle::Style(StackStyle::Italic),
                        children,
                    ),
                    Element::Underlined => self.emit_styled(
                        out,
                        characters,
                        AbstractStyle::Style(StackStyle::Underlined),
                        children,
                    ),
                    Element::Deleted => self.emit_styled(
                        out,
                        characters,
                        AbstractStyle::Style(StackStyle::Striked),
                        children,
                    ),
                    Element::Dotted => self.emit_styled(
                        out,
                        characters,
                        AbstractStyle::Style(StackStyle::Blink),
                        children,
                    ),
                    Element::Ruby | Element::Link => {
                        self.emit_elements(out, characters, children);
                        self.write_text(out, "(");
                        self.emit_elements(out, characters, parameters);
                        self.write_text(out, ")");
                    },
                    Element::Item => {
                        self.confirm_newline(out);
                        self.write_text(out, "・");
                        self.emit_elements(out, characters, children);
                        self.confirm_newline(out);
                    },
                    Element::Newline => append(out, "\n"),
                    Element::Line(id, style) => {
                        let (color, name) = self.get_color(characters.get(id.as_str()));
                        if *style == LineType::Inline {
                            self.emit_styled(out, characters, AbstractStyle::Color(color), children);
                        } else {
                            self.confirm_newline(out);
                            self.style_stack.push(AbstractStyle::Color(color));
                            if *style == LineType::NameShownBlock {
                                self.write_text(out, name);
                            }
                            proof {
                                lemma_nodes_stack(self.run_with(out@), nodes_view(children@), children@.len() as int, characters@);
                            }
                            self.emit_elements(out, characters, children);
                            self.style_stack.pop();
                            self.confirm_newline(out);
                        }
                    },
                    Element::Monospaced | Element::Parameter => {
                        self.emit_elements(out, characters, children)
                    },
                }
            },
        }
    }

    fn write_rule(&mut self, out: &mut String)
        ensures
            final(out)@ == old(out)@ + rule(),
            *final(self) == *old(self),
    {
        let mut i: usize = 0;
        let ghost start = out@;
        while i < 80
            invariant
                i <= 80,
                out@ == start + Seq::new(i as nat, |k: int| '-'),
            decreases 80 - i,
        {
            crate::text::push_char(out, '-');
            i = i + 1;
            assert(out@ =~= start + Seq::new(i as nat, |k: int| '-'));
        }
        crate::text::push_char(out, '\n');
        assert(out@ =~= start + rule());
    }

    fn emit_block(&mut self, out: &mut String, characters: &CharacterSet, block: &BlockNode)
        ensures
            final(self).run_with(final(out)@) == console_block(
                old(self).run_with(old(out)@),
                block@,
                characters@,
            ),
    {
        match block.kind {
            Block::Section => {
                self.confirm_paragraph(out);
                self.style_stack.push(AbstractStyle::Color(TermColor::Yellow));
                self.write_text(out, "###### ");
                proof {
                    lemma_nodes_stack(self.run_with(out@), nodes_view(block.children@), block.children@.len() as int, characters@);
                }
                self.emit_elements(out, characters, &block.children);
                self.write_text(out, " ######");
                self.style_stack.pop();
                self.confirm_paragraph(out);
            },
            Block::Subsection => {
                self.confirm_paragraph(out);
                self.style_stack.push(AbstractStyle::Color(TermColor::Yellow));
                self.write_text(out, "====== ");
                proof {
                    lemma_nodes_stack(self.run_with(out@), nodes_view(block.children@), block.children@.len() as int, characters@);
                }
                self.emit_elements(out, characters, &block.children);
                self.write_text(out, " ======");
                self.style_stack.pop();
                self.confirm_paragraph(out);
            },
            Block::Horizontal => {
                self.confirm_paragraph(out);
                self.write_rule(out);
                self.newline_state = NewlineState::Ready;
                self.confirm_paragraph(out);
            },
            Block::Quotation => {
                self.confirm_paragraph(out);
                self.confirm_newline(out);
                self.style_stack.push(AbstractStyle::Color(TermColor::Rgb(127, 127, 127)));
                proof {
                    lemma_nodes_stack(self.run_with(out@), nodes_view(block.children@), block.children@.len() as int, characters@);
                }
                self.emit_elements(out, characters, &block.children);
                self.style_stack.pop();
                self.confirm_paragraph(out);
            },
            _ => {
                self.confirm_paragraph(out);
                self.emit_elements(out, characters, &block.children);
                self.confirm_paragraph(out);
            },
        }
    }

    /// Renders every block of the document for a terminal. The emitter keeps its style stack
    /// and line state from one call to the next.
    pub fn emit(&mut self, document: &Document) -> (r: String)
        ensures
            final(self).run_with(r@) == console_blocks(
                old(self).run_with(Seq::empty()),
                document@.blocks,
                document@.blocks.len() as int,
                document@.characters,
            ),
    {
        let mut out = String::new();
        let ghost bs = document@.blocks;
        let mut i: usize = 0;
        while i < document.blocks.len()
            invariant
                i <= document.blocks@.len(),
                bs == document@.blocks,
                self.run_with(out@) == console_blocks(
                    old(self).run_with(Seq::empty()),
                    bs,
                    i as int,
                    document@.characters,
                ),
            decreases document.blocks@.len() - i,
        {
            self.emit_block(&mut out, &document.characters, &document.blocks[i]);
            i = i + 1;
        }
        out
    }
}

} // verus!
