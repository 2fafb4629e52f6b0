//! The line classifier and block assembler.
use vstd::prelude::*;

use crate::document::{
    grows, lemma_with_entry_grows, lemma_insert_index, CharacterModel, blocks_view, lemma_nodes_view_push, lemma_surrounded_view, nodes_view, Block, BlockModel,
    BlockNode, CharacterSet, Document, DocumentModel, Element, ElementModel, ElementNode,
    LineType, NodeModel, RegistryModel,
};
use crate::error::{
    errors_view, Error, ErrorKind, ErrorKindModel, ErrorModel, SemanticErrorKind, SemanticModel,
};
use crate::inline::{lemma_unknown_append, lemma_unknown_nodes_monotone, unknown_in_node, unknown_in_nodes, checked_inline, empty_surrounded, inline_parse, parse_inline, parse_inline_checked};
use crate::text::{
    chars_of, find_space_end, find_word_end, is_ascii_blank, is_ascii_blank_spec, is_hex,
    is_hex_spec, is_space, is_space_spec, is_text, is_word, is_word_spec, lemma_space_end_bounds,
    lemma_word_end_bounds, push_chars, slice_of, space_end, string_of, word_end,
};

verus! {

/// Which blanks are removed from both ends of each line.
#[derive(PartialEq, Eq, Structural, Clone, Copy, Debug)]
pub enum Trimming {
    /// Never trims.
    Never,
    /// Trims only ASCII whitespaces.
    AsciiOnly,
    /// Trims all whitespaces.
    Unicode,
}

/// Judges whether the parser should insert [br] element
/// at the end of each line.
#[derive(PartialEq, Eq, Structural, Clone, Copy, Debug)]
pub enum AutoNewline {
    /// Never inserts.
    Never,
    /// Always inserts.
    Always,
}

/// Represents misc. configuration for the document.
#[derive(PartialEq, Eq, Structural, Clone, Copy, Debug)]
pub struct ParserState {
    pub trimming: Trimming,
    pub auto_newline: AutoNewline,
    pub block_line_type: LineType,
}

impl ParserState {
    /// Creates a new instance: unicode trimming, no automatic line breaks, names shown.
    pub fn new() -> (r: ParserState)
        ensures
            r == initial_state(),
    {
        ParserState {
            trimming: Trimming::Unicode,
            auto_newline: AutoNewline::Never,
            block_line_type: LineType::NameShownBlock,
        }
    }
}

impl Default for ParserState {
    fn default() -> (r: ParserState)
        ensures
            r == initial_state(),
    {
        ParserState::new()
    }
}

pub open spec fn initial_state() -> ParserState {
    ParserState {
        trimming: Trimming::Unicode,
        auto_newline: AutoNewline::Never,
        block_line_type: LineType::NameShownBlock,
    }
}

// Trimming ------------------------------------------------------------------

pub open spec fn strippable(t: Trimming, c: char) -> bool {
    match t {
        Trimming::Never => false,
        Trimming::AsciiOnly => is_ascii_blank_spec(c),
        Trimming::Unicode => is_space_spec(c),
    }
}

/// The index of the first character at or after `i` that the policy keeps.
pub open spec fn trim_start(t: Trimming, l: Seq<char>, i: int) -> int
    decreases l.len() - i,
{
    if 0 <= i < l.len() && strippable(t, l[i]) {
        trim_start(t, l, i + 1)
    } else {
        i
    }
}

/// The end of the kept part: `j` moved left past strippable characters, not below `lo`.
pub open spec fn trim_end(t: Trimming, l: Seq<char>, lo: int, j: int) -> int
    decreases j - lo,
{
    if lo < j <= l.len() && strippable(t, l[j - 1]) {
        trim_end(t, l, lo, j - 1)
    } else {
        j
    }
}

/// A line without the blanks that the policy removes from both of its ends.
pub open spec fn trimmed(t: Trimming, l: Seq<char>) -> Seq<char> {
    let s = trim_start(t, l, 0);
    l.subrange(s, trim_end(t, l, s, l.len() as int))
}

fn strips(t: Trimming, c: char) -> (r: bool)
    ensures
        r == strippable(t, c),
{
    match t {
        Trimming::Never => false,
        Trimming::AsciiOnly => is_ascii_blank(c),
        Trimming::Unicode => is_space(c),
    }
}

/// The bounds of the part of `l` that the policy keeps.
fn trim_bounds(t: Trimming, l: &Vec<char>) -> (r: (usize, usize))
    ensures
        r.0 == trim_start(t, l@, 0),
        r.1 == trim_end(t, l@, r.0 as int, l@.len() as int),
        r.0 <= r.1 <= l@.len(),
{
    let mut s: usize = 0;
    while s < l.len() && strips(t, l[s])
        invariant
            s <= l@.len(),
            trim_start(t, l@, 0) == trim_start(t, l@, s as int),
        decreases l@.len() - s,
    {
        s = s + 1;
    }
    let mut e: usize = l.len();
    while e > s && strips(t, l[e - 1])
        invariant
            s <= e <= l@.len(),
            trim_end(t, l@, s as int, l@.len() as int) == trim_end(t, l@, s as int, e as int),
        decreases e - s,
    {
        e = e - 1;
    }
    (s, e)
}

/// A copy of the part of `l` that the policy keeps.
pub fn trim_chars(t: Trimming, l: &Vec<char>) -> (r: Vec<char>)
    ensures
        r@ == trimmed(t, l@),
{
    let (s, e) = trim_bounds(t, l);
    slice_of(l, s, e)
}

/// Separated trimming implementations.
pub struct Trimmer;

impl Trimmer {
    fn apply(t: Trimming, line: &str) -> (r: &str)
        ensures
            r@ == trimmed(t, line@),
    {
        let l = chars_of(line);
        let (s, e) = trim_bounds(t, &l);
        line.substring_char(s, e)
    }

    /// Never trims.
    pub fn never(line: &str) -> (r: &str)
        ensures
            r@ == trimmed(Trimming::Never, line@),
    {
        Trimmer::apply(Trimming::Never, line)
    }

    /// Trims only ASCII whitespaces.
    pub fn ascii_only(line: &str) -> (r: &str)
        ensures
            r@ == trimmed(Trimming::AsciiOnly, line@),
    {
        Trimmer::apply(Trimming::AsciiOnly, line)
    }

    /// Trims all whitespaces.
    pub fn unicode(line: &str) -> (r: &str)
        ensures
            r@ == trimmed(Trimming::Unicode, line@),
    {
        Trimmer::apply(Trimming::Unicode, line)
    }
}

// Lines ---------------------------------------------------------------------

/// The index of the first line feed at or after `i`, or the length.
pub open spec fn line_end(s: Seq<char>, i: int) -> int
    decreases s.len() - i,
{
    if 0 <= i < s.len() && s[i] != '\n' {
        line_end(s, i + 1)
    } else {
        i
    }
}

/// The line that starts at `i`: up to the next line feed, without a carriage return that
/// directly precedes that line feed.
pub open spec fn line_at(s: Seq<char>, i: int) -> Seq<char> {
    let e = line_end(s, i);
    if e < s.len() && e > i && s[e - 1] == '\r' {
        s.subrange(i, e - 1)
    } else {
        s.subrange(i, e)
    }
}

proof fn lemma_line_end(s: Seq<char>, i: int)
    requires
        0 <= i <= s.len(),
    ensures
        i <= line_end(s, i) <= s.len(),
    decreases s.len() - i,
{
    if i < s.len() && s[i] != '\n' {
        lemma_line_end(s, i + 1);
    }
}

fn find_line_end(s: &Vec<char>, i: usize) -> (r: usize)
    requires
        i <= s@.len(),
    ensures
        r == line_end(s@, i as int),
{
    let mut j = i;
    while j < s.len() && s[j] != '\n'
        invariant
            i <= j <= s@.len(),
            line_end(s@, i as int) == line_end(s@, j as int),
        decreases s@.len() - j,
    {
        j = j + 1;
    }
    j
}

fn line_chars(s: &Vec<char>, i: usize, e: usize) -> (r: Vec<char>)
    requires
        i <= s@.len(),
        e == line_end(s@, i as int),
    ensures
        r@ == line_at(s@, i as int),
{
    proof {
        lemma_line_end(s@, i as int);
    }
    if e < s.len() && e > i && s[e - 1] == '\r' {
        slice_of(s, i, e - 1)
    } else {
        slice_of(s, i, e)
    }
}

// Line heads ----------------------------------------------------------------

/// A line of the form `X name` or `X name rest`, with `X` one of `:`, `/`, `@`, `name` made of
/// word characters, and `rest` what follows the blanks after the name.
pub open spec fn line_head(l: Seq<char>) -> Option<(char, Seq<char>, Option<Seq<char>>)> {
    if l.len() >= 2 && (l[0] == ':' || l[0] == '/' || l[0] == '@') {
        let e = word_end(l, 1);
        if e == 1 {
            None
        } else if e == l.len() {
            Some((l[0], l.subrange(1, e), None))
        } else if is_space_spec(l[e]) {
            Some((l[0], l.subrange(1, e), Some(l.subrange(space_end(l, e), l.len() as int))))
        } else {
            None
        }
    } else {
        None
    }
}

fn read_line_head(l: &Vec<char>) -> (r: Option<(char, Vec<char>, Option<Vec<char>>)>)
    ensures
        match line_head(l@) {
            None => r is None,
            Some((c, name, rest)) => r matches Some((c2, n2, r2)) && c2 == c && n2@ == name
                && match rest {
                None => r2 is None,
                Some(x) => r2 matches Some(y) && y@ == x,
            },
        },
{
    let len = l.len();
    if len >= 2 && (l[0] == ':' || l[0] == '/' || l[0] == '@') {
        let e = find_word_end(l, 1);
        proof {
            lemma_word_end_bounds(l@, 1);
        }
        if e == 1 {
            None
        } else if e == len {
            Some((l[0], slice_of(l, 1, e), None))
        } else if is_space(l[e]) {
            let f = find_space_end(l, e);
            proof {
                lemma_space_end_bounds(l@, e as int);
            }
            Some((l[0], slice_of(l, 1, e), Some(slice_of(l, f, len))))
        } else {
            None
        }
    } else {
        None
    }
}

// Parameters ----------------------------------------------------------------

/// The index of the first blank at or after `i`, or the length.
pub open spec fn blank_at(l: Seq<char>, i: int) -> int
    decreases l.len() - i,
{
    if 0 <= i < l.len() && !is_space_spec(l[i]) {
        blank_at(l, i + 1)
    } else {
        i
    }
}

proof fn lemma_blank_at(l: Seq<char>, i: int)
    requires
        0 <= i <= l.len(),
    ensures
        i <= blank_at(l, i) <= l.len(),
        blank_at(l, i) < l.len() ==> is_space_spec(l[blank_at(l, i)]),
    decreases l.len() - i,
{
    if i < l.len() && !is_space_spec(l[i]) {
        lemma_blank_at(l, i + 1);
    }
}

/// The pieces of `r` between runs of blanks (an empty `r` is one empty piece).
pub open spec fn split_blanks(r: Seq<char>) -> Seq<Seq<char>>
    decreases r.len(),
{
    let e = blank_at(r, 0);
    let f = space_end(r, e);
    if e >= r.len() || !(0 < f <= r.len()) {
        seq![r]
    } else {
        seq![r.subrange(0, e)] + split_blanks(r.subrange(f, r.len() as int))
    }
}

fn split_params(r: &Vec<char>) -> (v: Vec<Vec<char>>)
    ensures
        v@.len() == split_blanks(r@).len(),
        forall|k: int| 0 <= k < v@.len() ==> (#[trigger] v@[k])@ == split_blanks(r@)[k],
{
    let mut v: Vec<Vec<char>> = Vec::new();
    let mut start: usize = 0;
    let len = r.len();
    assert(r@.subrange(0, len as int) =~= r@);
    assert(v@.map_values(|x: Vec<char>| x@) =~= Seq::<Seq<char>>::empty());
    loop
        invariant
            start <= len == r@.len(),
            split_blanks(r@) == v@.map_values(|x: Vec<char>| x@) + split_blanks(
                r@.subrange(start as int, len as int),
            ),
        decreases len - start,
    {
        let ghost rest = r@.subrange(start as int, len as int);
        let mut e = start;
        while e < len && !is_space(r[e])
            invariant
                start <= e <= len == r@.len(),
                rest == r@.subrange(start as int, len as int),
                blank_at(rest, 0) == blank_at(rest, e - start),
            decreases len - e,
        {
            assert(rest[e - start] == r@[e as int]);
            e = e + 1;
        }
        proof {
            lemma_blank_at(rest, 0);
            assert(e == len || rest[e - start] == r@[e as int]);
        }
        if e >= len {
            v.push(slice_of(r, start, len));
            proof {
                assert(v@.map_values(|x: Vec<char>| x@) =~= v@.drop_last().map_values(|x: Vec<char>| x@).push(rest));
            }
            assert(split_blanks(r@) =~= v@.map_values(|x: Vec<char>| x@));
            return v;
        }
        let f = find_space_end(r, e);
        proof {
            lemma_space_end_bounds(r@, e as int + 1);
            assert(space_end(r@, e as int) == space_end(r@, e as int + 1));
            assert(space_end(rest, e - start) == f - start) by {
                lemma_space_end_shift(r@, start as int, e as int);
            }
            assert(rest.subrange(f - start, rest.len() as int) =~= r@.subrange(f as int, len as int));
            assert(rest.subrange(0, e - start) =~= r@.subrange(start as int, e as int));
            assert(split_blanks(rest) == seq![rest.subrange(0, e - start)] + split_blanks(
                rest.subrange(f - start, rest.len() as int),
            ));
        }
        v.push(slice_of(r, start, e));
        proof {
            assert(v@.map_values(|x: Vec<char>| x@) =~= v@.drop_last().map_values(|x: Vec<char>| x@).push(rest.subrange(0, e - start)));
        }
        start = f;
    }
}

proof fn lemma_space_end_shift(l: Seq<char>, start: int, i: int)
    requires
        0 <= start <= i <= l.len(),
    ensures
        space_end(l.subrange(start, l.len() as int), i - start) == space_end(l, i) - start,
    decreases l.len() - i,
{
    if i < l.len() && is_space_spec(l[i]) {
        lemma_space_end_shift(l, start, i + 1);
    }
}

// Commands ------------------------------------------------------------------

pub open spec fn opt_view(o: Option<Vec<char>>) -> Option<Seq<char>> {
    match o {
        Some(v) => Some(v@),
        None => None,
    }
}

/// `[A-Za-z0-9_]+`
pub open spec fn is_identifier(s: Seq<char>) -> bool {
    s.len() > 0 && forall|k: int| 0 <= k < s.len() ==> is_word_spec(#[trigger] s[k])
}

pub open spec fn all_hex(s: Seq<char>) -> bool {
    forall|k: int| 0 <= k < s.len() ==> is_hex_spec(#[trigger] s[k])
}

/// The digits of a color code: 3 or 6 hexadecimal digits, optionally after `#`.
pub open spec fn color_code(k: Seq<char>) -> Option<Seq<char>> {
    let d = if k.len() > 0 && k[0] == '#' { k.drop_first() } else { k };
    if (d.len() == 3 || d.len() == 6) && all_hex(d) {
        Some(d)
    } else {
        None
    }
}

pub open spec fn semantic<T>(r: Result<T, SemanticModel>) -> Result<T, ErrorKindModel> {
    match r {
        Ok(v) => Ok(v),
        Err(e) => Err(ErrorKindModel::Semantic(e)),
    }
}

/// `:character <male|female|mob|color> <id> <name>`
pub open spec fn character_command(
    reg: RegistryModel,
    kind: Seq<char>,
    id: Seq<char>,
    name: Seq<char>,
) -> Result<RegistryModel, ErrorKindModel> {
    if !is_identifier(id) {
        Err(
            ErrorKindModel::Semantic(
                SemanticModel::UndefinedCharacter(id + " (invalid ID)"@),
            ),
        )
    } else if kind == "male"@ {
        semantic(reg.add_male(id, name))
    } else if kind == "female"@ {
        semantic(reg.add_female(id, name))
    } else if kind == "mob"@ {
        semantic(reg.add_mob(id, name))
    } else if let Some(c) = color_code(kind) {
        semantic(reg.add_custom(id, name, c))
    } else {
        Err(
            ErrorKindModel::Semantic(
                SemanticModel::UndefinedCharacter(id + " (invalid colorcode "@ + kind + ")"@),
            ),
        )
    }
}

pub open spec fn trimming_named(p: Seq<char>) -> Option<Trimming> {
    if p == "never"@ {
        Some(Trimming::Never)
    } else if p == "ascii"@ {
        Some(Trimming::AsciiOnly)
    } else if p == "unicode"@ {
        Some(Trimming::Unicode)
    } else {
        None
    }
}

pub open spec fn autobr_named(p: Seq<char>) -> Option<AutoNewline> {
    if p == "never"@ {
        Some(AutoNewline::Never)
    } else if p == "always"@ {
        Some(AutoNewline::Always)
    } else {
        None
    }
}

pub open spec fn linename_named(p: Seq<char>) -> Option<LineType> {
    if p == "shown"@ {
        Some(LineType::NameShownBlock)
    } else if p == "hidden"@ {
        Some(LineType::NameHiddenBlock)
    } else {
        None
    }
}

pub open spec fn invalid_parameter(prefix: Seq<char>, p: Seq<char>) -> ErrorKindModel {
    ErrorKindModel::Semantic(SemanticModel::InvalidParameter(prefix + p))
}

/// The effect of a `:name rest` line on the format state and the registry.
pub open spec fn command(
    st: ParserState,
    reg: RegistryModel,
    name: Seq<char>,
    rest: Option<Seq<char>>,
) -> Result<(ParserState, RegistryModel), ErrorKindModel> {
    let needed: nat = if name == "character"@ { 3 } else { 1 };
    if !(name == "character"@ || name == "trim"@ || name == "autobr"@ || name == "linename"@) {
        Err(ErrorKindModel::UnknownCommand(name))
    } else if rest is None {
        Err(ErrorKindModel::NotEnoughParameters { given: 0, needed })
    } else {
        let ps = split_blanks(rest->0);
        if name == "character"@ {
            if ps.len() != 3 {
                Err(ErrorKindModel::NotEnoughParameters { given: ps.len(), needed: 3 })
            } else {
                match character_command(reg, ps[0], ps[1], ps[2]) {
                    Ok(r) => Ok((st, r)),
                    Err(e) => Err(e),
                }
            }
        } else if name == "trim"@ {
            match trimming_named(ps[0]) {
                Some(t) => Ok((ParserState { trimming: t, ..st }, reg)),
                None => Err(invalid_parameter("Invalid trimming type: "@, ps[0])),
            }
        } else if name == "autobr"@ {
            match autobr_named(ps[0]) {
                Some(a) => Ok((ParserState { auto_newline: a, ..st }, reg)),
                None => Err(invalid_parameter("Invalid auto-br type: "@, ps[0])),
            }
        } else {
            match linename_named(ps[0]) {
                Some(v) => Ok((ParserState { block_line_type: v, ..st }, reg)),
                None => Err(invalid_parameter("Invalid line name visibility type: "@, ps[0])),
            }
        }
    }
}

fn all_word_from(v: &Vec<char>) -> (r: bool)
    ensures
        r == (forall|k: int| 0 <= k < v@.len() ==> is_word_spec(#[trigger] v@[k])),
{
    let mut i: usize = 0;
    while i < v.len()
        invariant
            i <= v@.len(),
            forall|k: int| 0 <= k < i ==> is_word_spec(#[trigger] v@[k]),
        decreases v@.len() - i,
    {
        if !is_word(v[i]) {
            return false;
        }
        i = i + 1;
    }
    true
}

fn read_color_code(k: &Vec<char>) -> (r: Option<Vec<char>>)
    ensures
        opt_view(r) == color_code(k@),
{
    let from: usize = if k.len() > 0 && k[0] == '#' { 1 } else { 0 };
    let d = slice_of(k, from, k.len());
    proof {
        if from == 1 {
            assert(d@ =~= k@.drop_first());
        } else {
            assert(d@ =~= k@);
        }
    }
    if d.len() != 3 && d.len() != 6 {
        return None;
    }
    let mut i: usize = 0;
    while i < d.len()
        invariant
            i <= d@.len(),
            d@.len() == 3 || d@.len() == 6,
            d@ == (if k@.len() > 0 && k@[0] == '#' { k@.drop_first() } else { k@ }),
            forall|j: int| 0 <= j < i ==> is_hex_spec(#[trigger] d@[j]),
        decreases d@.len() - i,
    {
        if !is_hex(d[i]) {
            proof {
                assert(!all_hex(d@)) by {
                    assert(!is_hex_spec(d@[i as int]));
                }
            }
            return None;
        }
        i = i + 1;
    }
    Some(d)
}

fn message_with(v: &Vec<char>, suffix: &str) -> (r: String)
    ensures
        r@ == v@ + suffix@,
{
    let mut m = string_of(v, 0, v.len());
    m.append(suffix);
    assert(v@.subrange(0, v@.len() as int) =~= v@);
    m
}

fn message_after(prefix: &str, v: &Vec<char>) -> (r: String)
    ensures
        r@ == prefix@ + v@,
{
    let mut m = prefix.to_owned();
    push_chars(&mut m, v, 0, v.len());
    assert(v@.subrange(0, v@.len() as int) =~= v@);
    m
}

fn semantic_error(r: Result<(), SemanticErrorKind>) -> (o: Result<(), ErrorKind>)
    ensures
        match r {
            Ok(_) => o is Ok,
            Err(e) => o matches Err(k) && k@ == ErrorKindModel::Semantic(e@),
        },
{
    match r {
        Ok(()) => Ok(()),
        Err(e) => Err(ErrorKind::Semantic(e)),
    }
}

fn character_chars(
    characters: &mut CharacterSet,
    kind: &Vec<char>,
    id: &Vec<char>,
    name: &Vec<char>,
) -> (r: Result<(), ErrorKind>)
    requires
        old(characters).wf(),
        old(characters)@.entries.len() < usize::MAX,
    ensures
        final(characters).wf(),
        match character_command(old(characters)@, kind@, id@, name@) {
            Ok(m) => r is Ok && final(characters)@ == m,
            Err(e) => r matches Err(k) && k@ == e && final(characters)@ == old(characters)@,
        },
{
    if id.len() == 0 || !all_word_from(id) {
        return Err(
            ErrorKind::Semantic(SemanticErrorKind::UndefinedCharacter(message_with(id, " (invalid ID)"))),
        );
    }
    let display = string_of(name, 0, name.len());
    assert(name@.subrange(0, name@.len() as int) =~= name@);
    if is_text(kind, "male") {
        semantic_error(characters.add_male_chars(id, display))
    } else if is_text(kind, "female") {
        semantic_error(characters.add_female_chars(id, display))
    } else if is_text(kind, "mob") {
        semantic_error(characters.add_mob_chars(id, display))
    } else {
        match read_color_code(kind) {
            Some(c) => {
                let color = string_of(&c, 0, c.len());
                assert(c@.subrange(0, c@.len() as int) =~= c@);
                semantic_error(characters.add_custom_chars(id, display, color))
            },
            None => {
                let mut m = message_with(id, " (invalid colorcode ");
                push_chars(&mut m, kind, 0, kind.len());
                m.append(")");
                assert(kind@.subrange(0, kind@.len() as int) =~= kind@);
                Err(ErrorKind::Semantic(SemanticErrorKind::UndefinedCharacter(m)))
            },
        }
    }
}

fn run_command(
    state: &mut ParserState,
    characters: &mut CharacterSet,
    name: &Vec<char>,
    rest: &Option<Vec<char>>,
) -> (r: Result<(), ErrorKind>)
    requires
        old(characters).wf(),
        old(characters)@.entries.len() < usize::MAX,
    ensures
        final(characters).wf(),
        match command(*old(state), old(characters)@, name@, opt_view(*rest)) {
            Ok((s, m)) => r is Ok && *final(state) == s && final(characters)@ == m,
            Err(e) => r matches Err(k) && k@ == e && *final(state) == *old(state)
                && final(characters)@ == old(characters)@,
        },
{
    let is_character = is_text(name, "character");
    let is_trim = is_text(name, "trim");
    let is_autobr = is_text(name, "autobr");
    let is_linename = is_text(name, "linename");
    proof {
        assert(name@.subrange(0, name@.len() as int) =~= name@);
    }
    if !(is_character || is_trim || is_autobr || is_linename) {
        return Err(ErrorKind::UnknownCommand(string_of(name, 0, name.len())));
    }
    let needed: usize = if is_character { 3 } else { 1 };
    let raw = match rest {
        Some(raw) => raw,
        None => {
            return Err(ErrorKind::NotEnoughParameters { given: 0, needed });
        },
    };
    let ps = split_params(raw);
    if is_character {
        if ps.len() != 3 {
            return Err(ErrorKind::NotEnoughParameters { given: ps.len(), needed: 3 });
        }
        return character_chars(characters, &ps[0], &ps[1], &ps[2]);
    }
    let p = &ps[0];
    if is_trim {
        if is_text(p, "never") {
            state.trimming = Trimming::Never;
        } else if is_text(p, "ascii") {
            state.trimming = Trimming::AsciiOnly;
        } else if is_text(p, "unicode") {
            state.trimming = Trimming::Unicode;
        } else {
            return Err(
                ErrorKind::Semantic(
                    SemanticErrorKind::InvalidParameter(message_after("Invalid trimming type: ", p)),
                ),
            );
        }
    } else if is_autobr {
        if is_text(p, "never") {
            state.auto_newline = AutoNewline::Never;
        } else if is_text(p, "always") {
            state.auto_newline = AutoNewline::Always;
        } else {
            return Err(
                ErrorKind::Semantic(
                    SemanticErrorKind::InvalidParameter(message_after("Invalid auto-br type: ", p)),
                ),
            );
        }
    } else {
        if is_text(p, "shown") {
            state.block_line_type = LineType::NameShownBlock;
        } else if is_text(p, "hidden") {
            state.block_line_type = LineType::NameHiddenBlock;
        } else {
            return Err(
                ErrorKind::Semantic(
                    SemanticErrorKind::InvalidParameter(
                        message_after("Invalid line name visibility type: ", p),
                    ),
                ),
            );
        }
    }
    Ok(())
}

// Blocks --------------------------------------------------------------------

pub open spec fn block_named(n: Seq<char>) -> Option<Block> {
    if n == "para"@ {
        Some(Block::Paragraph)
    } else if n == "sec"@ {
        Some(Block::Section)
    } else if n == "subsec"@ {
        Some(Block::Subsection)
    } else if n == "quote"@ {
        Some(Block::Quotation)
    } else if n == "hori"@ {
        Some(Block::Horizontal)
    } else if n == "list"@ {
        Some(Block::UnorderedList)
    } else {
        None
    }
}

pub open spec fn paragraph() -> BlockModel {
    BlockModel { kind: Block::Paragraph, children: Seq::empty() }
}

/// The committed blocks after committing `current`: empty blocks are dropped.
pub open spec fn commit(blocks: Seq<BlockModel>, current: BlockModel) -> Seq<BlockModel> {
    if current.children.len() > 0 {
        blocks.push(current)
    } else {
        blocks
    }
}

/// The effect of a `/kind rest` line on the committed blocks and the block in progress.
pub open spec fn block_line(
    reg: RegistryModel,
    blocks: Seq<BlockModel>,
    current: BlockModel,
    name: Seq<char>,
    rest: Option<Seq<char>>,
) -> Result<(Seq<BlockModel>, BlockModel), ErrorKindModel> {
    match block_named(name) {
        None => Err(ErrorKindModel::UnknownElement(name)),
        Some(k) => match rest {
            None => Ok(
                (commit(blocks, current).push(BlockModel { kind: k, children: Seq::empty() }), paragraph()),
            ),
            Some(r) => if r == ">>>"@ {
                Ok((commit(blocks, current), BlockModel { kind: k, children: Seq::empty() }))
            } else if r == "<<<"@ {
                if current.kind != k {
                    Err(ErrorKindModel::InvalidBlockPair)
                } else {
                    Ok((commit(blocks, current), paragraph()))
                }
            } else {
                match checked_inline(r, reg) {
                    Err(e) => Err(e),
                    Ok(ns) => Ok(
                        (commit(blocks, current).push(BlockModel { kind: k, children: ns }), paragraph()),
                    ),
                }
            },
        },
    }
}

/// The effect of an `@id rest` line on the block in progress.
pub open spec fn speech_line(
    reg: RegistryModel,
    style: LineType,
    current: BlockModel,
    id: Seq<char>,
    rest: Option<Seq<char>>,
) -> Result<BlockModel, ErrorKindModel> {
    if !reg.contains(id) {
        Err(ErrorKindModel::Semantic(SemanticModel::UndefinedCharacter(id)))
    } else {
        match checked_inline(if rest is Some { rest->0 } else { Seq::empty() }, reg) {
            Err(e) => Err(e),
            Ok(ns) => Ok(
                BlockModel {
                    children: current.children.push(
                        NodeModel::Surrounded {
                            kind: ElementModel::Line(id, style),
                            parameters: Seq::empty(),
                            children: ns,
                        },
                    ),
                    ..current
                },
            ),
        }
    }
}

/// The effect of a line of inline content on the block in progress.
pub open spec fn content_line(
    reg: RegistryModel,
    auto: AutoNewline,
    current: BlockModel,
    t: Seq<char>,
) -> Result<BlockModel, ErrorKindModel> {
    match checked_inline(t, reg) {
        Err(e) => Err(e),
        Ok(ns) => {
            let c = current.children + ns;
            Ok(
                BlockModel {
                    children: if auto == AutoNewline::Always && t.len() > 0 {
                        c.push(empty_surrounded(ElementModel::Newline))
                    } else {
                        c
                    },
                    ..current
                },
            )
        },
    }
}

/// Everything the parser holds between two lines.
pub struct ParseModel {
    pub blocks: Seq<BlockModel>,
    pub current: BlockModel,
    pub registry: RegistryModel,
    pub state: ParserState,
    pub errors: Seq<ErrorModel>,
}

/// The effect of a trimmed, non-blank line (or a blank one while no block is in progress).
pub open spec fn classify(m: ParseModel, t: Seq<char>) -> Result<ParseModel, ErrorKindModel> {
    match line_head(t) {
        Some((c, name, rest)) => {
            if c == ':' {
                match command(m.state, m.registry, name, rest) {
                    Ok((s, r)) => Ok(ParseModel { state: s, registry: r, ..m }),
                    Err(e) => Err(e),
                }
            } else if c == '/' {
                match block_line(m.registry, m.blocks, m.current, name, rest) {
                    Ok((bs, cur)) => Ok(ParseModel { blocks: bs, current: cur, ..m }),
                    Err(e) => Err(e),
                }
            } else {
                match speech_line(m.registry, m.state.block_line_type, m.current, name, rest) {
                    Ok(cur) => Ok(ParseModel { current: cur, ..m }),
                    Err(e) => Err(e),
                }
            }
        },
        None => match content_line(m.registry, m.state.auto_newline, m.current, t) {
            Ok(cur) => Ok(ParseModel { current: cur, ..m }),
            Err(e) => Err(e),
        },
    }
}

/// The effect of the raw line numbered `n`. A failing line changes nothing but the error list.
pub open spec fn step(m: ParseModel, raw: Seq<char>, n: nat) -> ParseModel {
    let t = trimmed(m.state.trimming, raw);
    if t.len() == 0 && m.current.children.len() > 0 {
        ParseModel { blocks: m.blocks.push(m.current), current: paragraph(), ..m }
    } else {
        match classify(m, t) {
            Ok(next) => next,
            Err(e) => ParseModel { errors: m.errors.push(ErrorModel { line: n, kind: e }), ..m },
        }
    }
}

/// The lines from position `i` on, the first of them numbered `n`.
pub open spec fn parse_from(s: Seq<char>, i: int, m: ParseModel, n: nat) -> ParseModel
    decreases s.len() - i,
{
    if i < 0 || i >= s.len() {
        m
    } else {
        let e = line_end(s, i);
        let next = step(m, line_at(s, i), n);
        if e < i || e + 1 >= s.len() {
            next
        } else {
            parse_from(s, e + 1, next, n + 1)
        }
    }
}

pub open spec fn initial_parse() -> ParseModel {
    ParseModel {
        blocks: Seq::empty(),
        current: paragraph(),
        registry: RegistryModel {
            entries: Seq::empty(),
            used_male: 0,
            used_female: 0,
            used_mob: 0,
        },
        state: initial_state(),
        errors: Seq::empty(),
    }
}

/// The document of a source text, or every error found in it, in line order.
pub open spec fn parse_document(s: Seq<char>) -> Result<DocumentModel, Seq<ErrorModel>> {
    let m = parse_from(s, 0, initial_parse(), 1);
    if m.errors.len() == 0 {
        Ok(DocumentModel { characters: m.registry, blocks: commit(m.blocks, m.current) })
    } else {
        Err(m.errors)
    }
}

proof fn lemma_blocks_view_push(v: Seq<BlockNode>, b: BlockNode)
    ensures
        blocks_view(v.push(b)) == blocks_view(v).push(b@),
{
    assert(blocks_view(v.push(b)) =~= blocks_view(v).push(b@));
}

proof fn lemma_nodes_view_concat(a: Seq<ElementNode>, b: Seq<ElementNode>)
    ensures
        nodes_view(a + b) == nodes_view(a) + nodes_view(b),
{
    assert(nodes_view(a + b) =~= nodes_view(a) + nodes_view(b));
}

fn commit_block(blocks: &mut Vec<BlockNode>, current: BlockNode)
    ensures
        blocks_view(final(blocks)@) == commit(blocks_view(old(blocks)@), current@),
{
    if !current.is_empty() {
        proof {
            lemma_blocks_view_push(blocks@, current);
        }
        blocks.push(current);
    }
}

fn block_kind_named(n: &Vec<char>) -> (r: Option<Block>)
    ensures
        r == block_named(n@),
{
    if is_text(n, "para") {
        Some(Block::Paragraph)
    } else if is_text(n, "sec") {
        Some(Block::Section)
    } else if is_text(n, "subsec") {
        Some(Block::Subsection)
    } else if is_text(n, "quote") {
        Some(Block::Quotation)
    } else if is_text(n, "hori") {
        Some(Block::Horizontal)
    } else if is_text(n, "list") {
        Some(Block::UnorderedList)
    } else {
        None
    }
}

fn block_chars(
    characters: &CharacterSet,
    blocks: &mut Vec<BlockNode>,
    current: BlockNode,
    name: &Vec<char>,
    rest: &Option<Vec<char>>,
) -> (r: (BlockNode, Option<ErrorKind>))
    ensures
        match block_line(characters@, blocks_view(old(blocks)@), current@, name@, opt_view(*rest)) {
            Ok((bs, cur)) => r.1 is None && r.0@ == cur && blocks_view(final(blocks)@) == bs,
            Err(e) => r.1 matches Some(k) && k@ == e && r.0@ == current@ && final(blocks)@ == old(
                blocks,
            )@,
        },
{
    let kind = match block_kind_named(name) {
        Some(k) => k,
        None => {
            let n = string_of(name, 0, name.len());
            assert(name@.subrange(0, name@.len() as int) =~= name@);
            return (current, Some(ErrorKind::UnknownElement(n)));
        },
    };
    match rest {
        None => {
            commit_block(blocks, current);
            let b = BlockNode::new(kind);
            proof {
                lemma_blocks_view_push(blocks@, b);
            }
            blocks.push(b);
            (BlockNode::new(Block::Paragraph), None)
        },
        Some(r) => {
            if is_text(r, ">>>") {
                commit_block(blocks, current);
                (BlockNode::new(kind), None)
            } else if is_text(r, "<<<") {
                if current.kind != kind {
                    (current, Some(ErrorKind::InvalidBlockPair))
                } else {
                    commit_block(blocks, current);
                    (BlockNode::new(Block::Paragraph), None)
                }
            } else {
                match parse_inline_checked(r, characters) {
                    Err(e) => (current, Some(e)),
                    Ok(children) => {
                        commit_block(blocks, current);
                        let b = BlockNode { kind, children };
                        proof {
                            lemma_blocks_view_push(blocks@, b);
                        }
                        blocks.push(b);
                        (BlockNode::new(Block::Paragraph), None)
                    },
                }
            }
        },
    }
}

fn speech_chars(
    characters: &CharacterSet,
    parent: &mut BlockNode,
    style: LineType,
    id: &Vec<char>,
    rest: &Option<Vec<char>>,
) -> (r: Result<(), ErrorKind>)
    ensures
        match speech_line(characters@, style, old(parent)@, id@, opt_view(*rest)) {
            Ok(cur) => r is Ok && final(parent)@ == cur,
            Err(e) => r matches Err(k) && k@ == e && *final(parent) == *old(parent),
        },
{
    let name = string_of(id, 0, id.len());
    assert(name@ =~= id@);
    if characters.lookup(id).is_none() {
        return Err(ErrorKind::Semantic(SemanticErrorKind::UndefinedCharacter(name)));
    }
    let empty: Vec<char> = Vec::new();
    let text = match rest {
        Some(r) => r,
        None => &empty,
    };
    assert(text@ == (if opt_view(*rest) is Some { opt_view(*rest)->0 } else { Seq::<char>::empty() }));
    match parse_inline_checked(text, characters) {
        Err(e) => Err(e),
        Ok(children) => {
            let parameters: Vec<ElementNode> = Vec::new();
            let kind = Element::Line(name, style);
            proof {
                lemma_surrounded_view(kind, parameters, children);
                assert(nodes_view(parameters@) =~= Seq::empty());
            }
            let node = ElementNode::Surrounded { kind, parameters, children };
            proof {
                lemma_nodes_view_push(parent.children@, node);
            }
            parent.children.push(node);
            Ok(())
        },
    }
}

fn content_chars(
    characters: &CharacterSet,
    auto: AutoNewline,
    parent: &mut BlockNode,
    t: &Vec<char>,
) -> (r: Result<
    (),
    ErrorKind,
>)
    ensures
        match content_line(characters@, auto, old(parent)@, t@) {
            Ok(cur) => r is Ok && final(parent)@ == cur,
            Err(e) => r matches Err(k) && k@ == e && *final(parent) == *old(parent),
        },
{
    match parse_inline_checked(t, characters) {
        Err(e) => Err(e),
        Ok(mut nodes) => {
            proof {
                lemma_nodes_view_concat(parent.children@, nodes@);
            }
            parent.children.append(&mut nodes);
            if auto == AutoNewline::Always && t.len() > 0 {
                let br = ElementNode::new_surrounded(Element::Newline);
                proof {
                    lemma_nodes_view_push(parent.children@, br);
                }
                parent.children.push(br);
            }
            Ok(())
        },
    }
}

pub open spec fn model_of(
    doc: Document,
    current: BlockNode,
    state: ParserState,
    errors: Seq<Error>,
) -> ParseModel {
    ParseModel {
        blocks: blocks_view(doc.blocks@),
        current: current@,
        registry: doc.characters@,
        state,
        errors: errors_view(errors),
    }
}

/// A registration adds at most one entry.
proof fn lemma_command_growth(
    st: ParserState,
    reg: RegistryModel,
    name: Seq<char>,
    rest: Option<Seq<char>>,
)
    ensures
        command(st, reg, name, rest) matches Ok((_, r)) ==> r.entries.len() <= reg.entries.len()
            + 1,
{
    lemma_insert_index(reg.entries, name, 0);
    if let Some(x) = rest {
        let ps = split_blanks(x);
        if ps.len() == 3 {
            lemma_insert_index(reg.entries, ps[1], 0);
        }
    }
}

/// Classifying a line does not look at the errors found so far.
proof fn lemma_classify_errors(m: ParseModel, t: Seq<char>)
    ensures
        classify(m, t) == match classify(ParseModel { errors: Seq::empty(), ..m }, t) {
            Ok(m2) => Ok(ParseModel { errors: m.errors, ..m2 }),
            Err(e) => Err(e),
        },
{
}

/// S3WF2 parser.
pub struct Parser;

pub open spec fn str_opt_view(o: Option<&str>) -> Option<Seq<char>> {
    match o {
        Some(s) => Some(s@),
        None => None,
    }
}

fn chars_opt(o: Option<&str>) -> (r: Option<Vec<char>>)
    ensures
        opt_view(r) == str_opt_view(o),
{
    match o {
        Some(s) => Some(chars_of(s)),
        None => None,
    }
}

impl Parser {
    /// Creates a new instance.
    pub fn new() -> (r: Parser) {
        Parser
    }

    fn handle_line(
        &self,
        doc: &mut Document,
        current: BlockNode,
        state: &mut ParserState,
        t: &Vec<char>,
    ) -> (r: (BlockNode, Result<(), ErrorKind>))
        requires
            old(doc).characters.wf(),
            old(doc).characters@.entries.len() < usize::MAX,
        ensures
            final(doc).characters.wf(),
            final(doc).characters@.entries.len() <= old(doc).characters@.entries.len() + 1,
            match classify(model_of(*old(doc), current, *old(state), Seq::empty()), t@) {
                Ok(m) => r.1 is Ok && model_of(*final(doc), r.0, *final(state), Seq::empty())
                    == m,
                Err(e) => r.1 matches Err(k) && k@ == e && model_of(
                    *final(doc),
                    r.0,
                    *final(state),
                    Seq::empty(),
                ) == model_of(*old(doc), current, *old(state), Seq::empty()),
            },
    {
        proof {
            assert(errors_view(Seq::<Error>::empty()) =~= Seq::empty());
        }
        match read_line_head(t) {
            Some((c, name, rest)) => {
                if c == ':' {
                    proof {
                        lemma_command_growth(*state, doc.characters@, name@, opt_view(rest));
                    }
                    let r = run_command(state, &mut doc.characters, &name, &rest);
                    (current, r)
                } else if c == '/' {
                    let (next, e) = block_chars(&doc.characters, &mut doc.blocks, current, &name, &rest);
                    match e {
                        Some(k) => (next, Err(k)),
                        None => (next, Ok(())),
                    }
                } else {
                    let mut cur = current;
                    let r = speech_chars(&doc.characters, &mut cur, state.block_line_type, &name, &rest);
                    (cur, r)
                }
            },
            None => {
                let mut cur = current;
                let r = content_chars(&doc.characters, state.auto_newline, &mut cur, t);
                (cur, r)
            },
        }
    }

    /// Parses text into a document.
    ///
    /// # Return value
    /// * `Ok(Document)` when parse completed successfully
    /// * `Err(Vec<Error>)` when some error detected
    ///     - Each item represents an error in single line
    pub fn parse(&self, source: &str) -> (r: Result<Document, Vec<Error>>)
        ensures
            match parse_document(source@) {
                Ok(d) => r matches Ok(doc) && doc@ == d && doc.characters.wf(),
                Err(es) => r matches Err(v) && errors_view(v@) == es,
            },
    {
        let s = chars_of(source);
        let mut doc = Document::new();
        let mut state = ParserState::new();
        let mut errors: Vec<Error> = Vec::new();
        let mut current = BlockNode::new(Block::Paragraph);
        proof {
            assert(model_of(doc, current, state, errors@) =~= initial_parse()) by {
                assert(blocks_view(doc.blocks@) =~= Seq::empty());
                assert(errors_view(errors@) =~= Seq::empty());
                assert(doc.characters@.entries =~= Seq::empty());
            }
        }
        if s.len() > 0 {
            let mut i: usize = 0;
            let mut n: usize = 1;
            loop
                invariant_except_break
                    i < s@.len(),
                    1 <= n <= i + 1,
                    doc.characters@.entries.len() < n,
                    parse_from(s@, 0, initial_parse(), 1) == parse_from(
                        s@,
                        i as int,
                        model_of(doc, current, state, errors@),
                        n as nat,
                    ),
                invariant
                    doc.characters.wf(),
                ensures
                    parse_from(s@, 0, initial_parse(), 1) == model_of(doc, current, state, errors@),
                decreases s@.len() - i,
            {
                let e = find_line_end(&s, i);
                proof {
                    lemma_line_end(s@, i as int);
                }
                let raw = line_chars(&s, i, e);
                let t = trim_chars(state.trimming, &raw);
                let ghost m = model_of(doc, current, state, errors@);
                if t.len() == 0 && !current.is_empty() {
                    proof {
                        lemma_blocks_view_push(doc.blocks@, current);
                    }
                    doc.blocks.push(current);
                    current = BlockNode::new(Block::Paragraph);
                } else {
                    proof {
                        lemma_classify_errors(m, t@);
                    }
                    let (next, r) = self.handle_line(&mut doc, current, &mut state, &t);
                    current = next;
                    match r {
                        Ok(()) => {},
                        Err(kind) => {
                            let err = Error { line_number: n, kind };
                            proof {
                                assert(errors_view(errors@.push(err)) =~= errors_view(errors@).push(err@));
                            }
                            errors.push(err);
                        },
                    }
                }
                proof {
                    assert(model_of(doc, current, state, errors@) == step(m, raw@, n as nat));
                }
                if e >= s.len() - 1 {
                    break;
                }
                i = e + 1;
                n = n + 1;
            }
        }
        assert(parse_from(s@, 0, initial_parse(), 1) == model_of(doc, current, state, errors@));
        commit_block(&mut doc.blocks, current);
        if errors.len() == 0 {
            Ok(doc)
        } else {
            Err(errors)
        }
    }

    /// Handles a `:name rest` line: changes the format state or registers a character.
    pub fn parse_command(
        &self,
        state: &mut ParserState,
        document: &mut Document,
        name: &str,
        rest: Option<&str>,
    ) -> (r: Result<(), ErrorKind>)
        requires
            old(document).characters.wf(),
            old(document)@.characters.entries.len() < usize::MAX,
        ensures
            final(document).characters.wf(),
            final(document)@.blocks == old(document)@.blocks,
            match command(*old(state), old(document)@.characters, name@, str_opt_view(rest)) {
                Ok((s, m)) => r is Ok && *final(state) == s && final(document)@.characters == m,
                Err(e) => r matches Err(k) && k@ == e && *final(state) == *old(state)
                    && final(document)@.characters == old(document)@.characters,
            },
    {
        let n = chars_of(name);
        let r = chars_opt(rest);
        run_command(state, &mut document.characters, &n, &r)
    }

    /// Handles a `/kind rest` line; returns the block in progress afterwards.
    pub fn parse_block(
        &self,
        document: &mut Document,
        current_block: BlockNode,
        element: &str,
        rest: Option<&str>,
    ) -> (r: (BlockNode, Option<ErrorKind>))
        ensures
            final(document)@.characters == old(document)@.characters,
            match block_line(
                old(document)@.characters,
                old(document)@.blocks,
                current_block@,
                element@,
                str_opt_view(rest),
            ) {
                Ok((bs, cur)) => r.1 is None && r.0@ == cur && final(document)@.blocks == bs,
                Err(e) => r.1 matches Some(k) && k@ == e && r.0@ == current_block@
                    && final(document)@.blocks == old(document)@.blocks,
            },
    {
        let n = chars_of(element);
        let r = chars_opt(rest);
        block_chars(&document.characters, &mut document.blocks, current_block, &n, &r)
    }

    /// Handles an `@id rest` line: appends a speech line to the block in progress.
    pub fn parse_line(
        &self,
        characters: &CharacterSet,
        parent_block: &mut BlockNode,
        inline: LineType,
        element: &str,
        rest: Option<&str>,
    ) -> (r: Result<(), ErrorKind>)
        ensures
            match speech_line(characters@, inline, old(parent_block)@, element@, str_opt_view(rest)) {
                Ok(cur) => r is Ok && final(parent_block)@ == cur,
                Err(e) => r matches Err(k) && k@ == e && *final(parent_block) == *old(parent_block),
            },
    {
        let n = chars_of(element);
        let r = chars_opt(rest);
        speech_chars(characters, parent_block, inline, &n, &r)
    }

    /// Parses one line of inline content and appends its nodes to `parent`; on failure `parent`
    /// is left as it was.
    pub fn parse_normal(&self, parent: &mut Vec<ElementNode>, line: &str) -> (r: Result<
        (),
        ErrorKind,
    >)
        ensures
            match inline_parse(line@) {
                Ok(ns) => r is Ok && nodes_view(final(parent)@) == nodes_view(old(parent)@) + ns,
                Err(e) => r matches Err(k) && k@ == e && final(parent)@ == old(parent)@,
            },
    {
        let l = chars_of(line);
        match parse_inline(&l) {
            Err(e) => Err(e),
            Ok(mut nodes) => {
                proof {
                    lemma_nodes_view_concat(parent@, nodes@);
                }
                parent.append(&mut nodes);
                Ok(())
            },
        }
    }
}

// Character references of parsed documents ----------------------------------

/// The nodes of the block name only registered characters.
pub open spec fn block_known(b: BlockModel, reg: RegistryModel) -> bool {
    unknown_in_nodes(b.children, b.children.len() as int, reg) is None
}

/// The nodes of every block name only registered characters.
pub open spec fn lines_known(bs: Seq<BlockModel>, reg: RegistryModel) -> bool {
    forall|i: int| 0 <= i < bs.len() ==> #[trigger] block_known(bs[i], reg)
}

pub open spec fn model_known(m: ParseModel) -> bool {
    lines_known(m.blocks, m.registry) && block_known(m.current, m.registry)
}

proof fn lemma_push_known(bs: Seq<BlockModel>, b: BlockModel, reg: RegistryModel)
    requires
        lines_known(bs, reg),
        block_known(b, reg),
    ensures
        lines_known(bs.push(b), reg),
{
    assert forall|i: int| 0 <= i < bs.push(b).len() implies #[trigger] block_known(bs.push(b)[i], reg) by {
        if i < bs.len() {
            assert(bs.push(b)[i] == bs[i]);
        }
    }
}

proof fn lemma_commit_known(bs: Seq<BlockModel>, b: BlockModel, reg: RegistryModel)
    requires
        lines_known(bs, reg),
        block_known(b, reg),
    ensures
        lines_known(commit(bs, b), reg),
{
    lemma_push_known(bs, b, reg);
}

proof fn lemma_empty_known(k: Block, reg: RegistryModel)
    ensures
        block_known(BlockModel { kind: k, children: Seq::empty() }, reg),
{
}

proof fn lemma_command_grows(st: ParserState, reg: RegistryModel, name: Seq<char>, rest: Option<Seq<char>>)
    ensures
        command(st, reg, name, rest) matches Ok((_, r)) ==> grows(reg, r),
{
    if let Ok((_, r)) = command(st, reg, name, rest) {
        if name == "character"@ {
            let ps = split_blanks(rest->0);
            let (kind, id, dn) = (ps[0], ps[1], ps[2]);
            if kind == "male"@ {
                lemma_with_entry_grows(reg, id, CharacterModel::Male(reg.used_male + 1, dn), r);
            } else if kind == "female"@ {
                lemma_with_entry_grows(reg, id, CharacterModel::Female(reg.used_female + 1, dn), r);
            } else if kind == "mob"@ {
                lemma_with_entry_grows(reg, id, CharacterModel::Mob(reg.used_mob + 1, dn), r);
            } else {
                lemma_with_entry_grows(reg, id, CharacterModel::Custom(color_code(kind)->0, dn), r);
            }
        }
    }
}

proof fn lemma_classify_known(m: ParseModel, t: Seq<char>)
    requires
        model_known(m),
    ensures
        classify(m, t) matches Ok(m2) ==> model_known(m2),
{
    let reg = m.registry;
    match line_head(t) {
        Some((c, name, rest)) => {
            if c == ':' {
                lemma_command_grows(m.state, reg, name, rest);
                if let Ok((_, r)) = command(m.state, reg, name, rest) {
                    assert forall|i: int| 0 <= i < m.blocks.len() implies #[trigger] block_known(
                        m.blocks[i],
                        r,
                    ) by {
                        assert(block_known(m.blocks[i], reg));
                        lemma_unknown_nodes_monotone(
                            m.blocks[i].children,
                            m.blocks[i].children.len() as int,
                            reg,
                            r,
                        );
                    }
                    lemma_unknown_nodes_monotone(
                        m.current.children,
                        m.current.children.len() as int,
                        reg,
                        r,
                    );
                }
            } else if c == '/' {
                lemma_commit_known(m.blocks, m.current, reg);
                if let Some(k) = block_named(name) {
                    lemma_empty_known(k, reg);
                    lemma_empty_known(Block::Paragraph, reg);
                    lemma_push_known(commit(m.blocks, m.current), BlockModel { kind: k, children: Seq::empty() }, reg);
                    if let Some(r) = rest {
                        if let Ok(ns) = checked_inline(r, reg) {
                            lemma_push_known(commit(m.blocks, m.current), BlockModel { kind: k, children: ns }, reg);
                        }
                    }
                }
            } else {
                let text = if rest is Some { rest->0 } else { Seq::empty() };
                if reg.contains(name) {
                    if let Ok(ns) = checked_inline(text, reg) {
                        let node = NodeModel::Surrounded {
                            kind: ElementModel::Line(name, m.state.block_line_type),
                            parameters: Seq::empty(),
                            children: ns,
                        };
                        assert(unknown_in_node(node, reg) is None);
                        assert(unknown_in_nodes(seq![node], 0, reg) is None);
                assert(seq![node][0] == node);
                assert(unknown_in_nodes(seq![node], 1, reg) is None);
                        lemma_unknown_append(m.current.children, seq![node], reg);
                        assert(m.current.children.push(node) =~= m.current.children + seq![node]);
                    }
                }
            }
        },
        None => {
            if let Ok(ns) = checked_inline(t, reg) {
                lemma_unknown_append(m.current.children, ns, reg);
                let c = m.current.children + ns;
                let br = empty_surrounded(ElementModel::Newline);
                assert(unknown_in_node(br, reg) is None);
                assert(unknown_in_nodes(seq![br], 0, reg) is None);
                assert(seq![br][0] == br);
                assert(unknown_in_nodes(seq![br], 1, reg) is None);
                lemma_unknown_append(c, seq![br], reg);
                assert(c.push(br) =~= c + seq![br]);
            }
        },
    }
}

proof fn lemma_step_known(m: ParseModel, raw: Seq<char>, n: nat)
    requires
        model_known(m),
    ensures
        model_known(step(m, raw, n)),
{
    let t = trimmed(m.state.trimming, raw);
    if t.len() == 0 && m.current.children.len() > 0 {
        lemma_push_known(m.blocks, m.current, m.registry);
        lemma_empty_known(Block::Paragraph, m.registry);
    } else {
        lemma_classify_known(m, t);
    }
}

proof fn lemma_parse_from_known(s: Seq<char>, i: int, m: ParseModel, n: nat)
    requires
        model_known(m),
    ensures
        model_known(parse_from(s, i, m, n)),
    decreases s.len() - i,
{
    if 0 <= i < s.len() {
        let e = line_end(s, i);
        lemma_step_known(m, line_at(s, i), n);
        if !(e < i || e + 1 >= s.len()) {
            lemma_parse_from_known(s, e + 1, step(m, line_at(s, i), n), n + 1);
        }
    }
}

/// Every speech line and every inline character reference of a parsed document names a
/// registered character.
pub proof fn parsed_documents_name_registered_characters(s: Seq<char>)
    ensures
        parse_document(s) matches Ok(d) ==> lines_known(d.blocks, d.characters),
{
    let m0 = initial_parse();
    lemma_empty_known(Block::Paragraph, m0.registry);
    lemma_parse_from_known(s, 0, m0, 1);
    let m = parse_from(s, 0, m0, 1);
    lemma_commit_known(m.blocks, m.current, m.registry);
}

// Collected errors ----------------------------------------------------------------

/// The number of lines from position `i` on, as `parse_from` reads them.
pub open spec fn line_count_from(s: Seq<char>, i: int) -> nat
    decreases s.len() - i,
{
    if i < 0 || i >= s.len() {
        0
    } else {
        let e = line_end(s, i);
        if e < i || e + 1 >= s.len() {
            1
        } else {
            1 + line_count_from(s, e + 1)
        }
    }
}

/// The number of lines of a source text.
pub open spec fn line_count(s: Seq<char>) -> nat {
    line_count_from(s, 0)
}

/// Errors in strictly increasing line order, numbered from 1 and below `n`.
pub open spec fn errors_in_order(es: Seq<ErrorModel>, n: nat) -> bool {
    &&& forall|i: int, j: int| 0 <= i < j < es.len() ==> (#[trigger] es[i]).line < (#[trigger] es[j]).line
    &&& forall|i: int| 0 <= i < es.len() ==> 1 <= (#[trigger] es[i]).line < n
}

proof fn lemma_step_errors(m: ParseModel, raw: Seq<char>, n: nat)
    requires
        n >= 1,
        errors_in_order(m.errors, n),
    ensures
        errors_in_order(step(m, raw, n).errors, n + 1),
{
    let t = trimmed(m.state.trimming, raw);
    if !(t.len() == 0 && m.current.children.len() > 0) {
        match classify(m, t) {
            Ok(next) => {
                assert(next.errors == m.errors);
            },
            Err(e) => {
                let es = m.errors.push(ErrorModel { line: n, kind: e });
                assert forall|i: int, j: int| 0 <= i < j < es.len() implies (#[trigger] es[i]).line
                    < (#[trigger] es[j]).line by {
                    if j < m.errors.len() {
                        assert(es[i] == m.errors[i] && es[j] == m.errors[j]);
                    } else {
                        assert(es[i] == m.errors[i]);
                    }
                }
                assert forall|i: int| 0 <= i < es.len() implies 1 <= (#[trigger] es[i]).line < n + 1 by {
                    if i < m.errors.len() {
                        assert(es[i] == m.errors[i]);
                    }
                }
            },
        }
    }
}

proof fn lemma_parse_from_errors(s: Seq<char>, i: int, m: ParseModel, n: nat)
    requires
        n >= 1,
        errors_in_order(m.errors, n),
    ensures
        errors_in_order(parse_from(s, i, m, n).errors, n + line_count_from(s, i)),
    decreases s.len() - i,
{
    if 0 <= i < s.len() {
        let e = line_end(s, i);
        lemma_step_errors(m, line_at(s, i), n);
        if !(e < i || e + 1 >= s.len()) {
            lemma_parse_from_errors(s, e + 1, step(m, line_at(s, i), n), n + 1);
        }
    }
}

/// Parsing reads every line whatever failed before: the errors it reports are not empty, come
/// at most one per line in increasing line order, and each names a line of the source.
pub proof fn errors_are_collected_line_by_line(s: Seq<char>)
    ensures
        parse_document(s) matches Err(es) ==> es.len() > 0 && (forall|i: int, j: int|
            0 <= i < j < es.len() ==> (#[trigger] es[i]).line < (#[trigger] es[j]).line) && (forall|i: int|
            0 <= i < es.len() ==> 1 <= (#[trigger] es[i]).line <= line_count(s)),
{
    lemma_parse_from_errors(s, 0, initial_parse(), 1);
}

} // verus!
