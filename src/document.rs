//! The document tree and the character registry.
use vstd::prelude::*;

use crate::error::{SemanticErrorKind, SemanticModel};
use crate::text::{
    chars_of, decimal, lemma_text_lt_asymmetric, lemma_text_lt_irreflexive, lemma_text_lt_total,
    lemma_text_lt_transitive, less_than, push_decimal, text_lt,
};

verus! {

/// Indicates the type of characters in document.
#[derive(Debug, PartialEq, Eq)]
pub enum CharacterType {
    /// Preset male character, with index and display name
    Male(usize, String),
    /// Preset female character, with index and display name
    Female(usize, String),
    /// Preset mob character, with index and display name
    Mob(usize, String),
    /// Customized color character, with colorcode (3 or 6 digit hexadecimal, without `#`) and
    /// display name
    Custom(String, String),
}

/// The mathematical value of a `CharacterType`.
pub enum CharacterModel {
    Male(nat, Seq<char>),
    Female(nat, Seq<char>),
    Mob(nat, Seq<char>),
    Custom(Seq<char>, Seq<char>),
}

impl View for CharacterType {
    type V = CharacterModel;

    open spec fn view(&self) -> CharacterModel {
        match self {
            CharacterType::Male(i, n) => CharacterModel::Male(*i as nat, n@),
            CharacterType::Female(i, n) => CharacterModel::Female(*i as nat, n@),
            CharacterType::Mob(i, n) => CharacterModel::Mob(*i as nat, n@),
            CharacterType::Custom(c, n) => CharacterModel::Custom(c@, n@),
        }
    }
}

/// The name shown for a character.
pub open spec fn display_name_of(c: CharacterModel) -> Seq<char> {
    match c {
        CharacterModel::Male(_, n) => n,
        CharacterModel::Female(_, n) => n,
        CharacterModel::Mob(_, n) => n,
        CharacterModel::Custom(_, n) => n,
    }
}

impl CharacterType {
    /// Returns the name which should be displayed.
    pub fn display_name(&self) -> (r: &str)
        ensures
            r@ == display_name_of(self@),
    {
        match self {
            CharacterType::Male(_, name) => name.as_str(),
            CharacterType::Female(_, name) => name.as_str(),
            CharacterType::Mob(_, name) => name.as_str(),
            CharacterType::Custom(_, name) => name.as_str(),
        }
    }
}

/// The mathematical value of a `CharacterSet`: its entries in enumeration order and the three
/// per-kind counters of registrations.
pub struct RegistryModel {
    pub entries: Seq<(Seq<char>, CharacterModel)>,
    pub used_male: nat,
    pub used_female: nat,
    pub used_mob: nat,
}

/// Entries ordered strictly by ID, so that no ID occurs twice.
pub open spec fn sorted_by_id(e: Seq<(Seq<char>, CharacterModel)>) -> bool {
    forall|i: int, j: int| 0 <= i < j < e.len() ==> text_lt(#[trigger] e[i].0, #[trigger] e[j].0)
}

/// The index of the first entry at or after `i` whose ID is `id`, or the number of entries.
pub open spec fn index_of(e: Seq<(Seq<char>, CharacterModel)>, id: Seq<char>, i: int) -> int
    decreases e.len() - i,
{
    if i < 0 || i >= e.len() {
        e.len() as int
    } else if e[i].0 == id {
        i
    } else {
        index_of(e, id, i + 1)
    }
}

/// The index of the first entry at or after `i` whose ID does not precede `id`.
pub open spec fn insert_index(e: Seq<(Seq<char>, CharacterModel)>, id: Seq<char>, i: int) -> int
    decreases e.len() - i,
{
    if i < 0 || i >= e.len() {
        e.len() as int
    } else if text_lt(e[i].0, id) {
        insert_index(e, id, i + 1)
    } else {
        i
    }
}

impl RegistryModel {
    pub open spec fn contains(self, id: Seq<char>) -> bool {
        index_of(self.entries, id, 0) < self.entries.len()
    }

    /// The character registered under `id`.
    pub open spec fn lookup(self, id: Seq<char>) -> Option<CharacterModel> {
        if self.contains(id) {
            Some(self.entries[index_of(self.entries, id, 0)].1)
        } else {
            None
        }
    }

    /// The entries with `(id, c)` placed in ID order.
    pub open spec fn with_entry(self, id: Seq<char>, c: CharacterModel) -> Seq<
        (Seq<char>, CharacterModel),
    > {
        self.entries.insert(insert_index(self.entries, id, 0), (id, c))
    }

    /// Registering a male character: the next male ordinal, unless the ID is taken.
    pub open spec fn add_male(self, id: Seq<char>, name: Seq<char>) -> Result<
        RegistryModel,
        SemanticModel,
    > {
        if self.contains(id) {
            Err(SemanticModel::DuplicateCharacter(id))
        } else {
            Ok(
                RegistryModel {
                    entries: self.with_entry(id, CharacterModel::Male(self.used_male + 1, name)),
                    used_male: self.used_male + 1,
                    ..self
                },
            )
        }
    }

    pub open spec fn add_female(self, id: Seq<char>, name: Seq<char>) -> Result<
        RegistryModel,
        SemanticModel,
    > {
        if self.contains(id) {
            Err(SemanticModel::DuplicateCharacter(id))
        } else {
            Ok(
                RegistryModel {
                    entries: self.with_entry(
                        id,
                        CharacterModel::Female(self.used_female + 1, name),
                    ),
                    used_female: self.used_female + 1,
                    ..self
                },
            )
        }
    }

    pub open spec fn add_mob(self, id: Seq<char>, name: Seq<char>) -> Result<
        RegistryModel,
        SemanticModel,
    > {
        if self.contains(id) {
            Err(SemanticModel::DuplicateCharacter(id))
        } else {
            Ok(
                RegistryModel {
                    entries: self.with_entry(id, CharacterModel::Mob(self.used_mob + 1, name)),
                    used_mob: self.used_mob + 1,
                    ..self
                },
            )
        }
    }

    /// Registering a custom color character; the counters stay as they are.
    pub open spec fn add_custom(self, id: Seq<char>, name: Seq<char>, color: Seq<char>) -> Result<
        RegistryModel,
        SemanticModel,
    > {
        if self.contains(id) {
            Err(SemanticModel::DuplicateCharacter(id))
        } else {
            Ok(
                RegistryModel {
                    entries: self.with_entry(id, CharacterModel::Custom(color, name)),
                    ..self
                },
            )
        }
    }
}

/// Contains characters metadata.
#[derive(Debug)]
pub struct CharacterSet {
    pub(crate) used_male: usize,
    pub(crate) used_female: usize,
    pub(crate) used_mob: usize,
    pub(crate) characters: Vec<(String, CharacterType)>,
}

impl Default for CharacterSet {
    fn default() -> (r: CharacterSet)
        ensures
            r.wf(),
            r@.entries.len() == 0,
            r@.used_male == 0,
            r@.used_female == 0,
            r@.used_mob == 0,
    {
        CharacterSet::new()
    }
}

/// The values of registry entries.
pub open spec fn entries_view(v: Seq<(String, CharacterType)>) -> Seq<(Seq<char>, CharacterModel)> {
    v.map_values(|e: (String, CharacterType)| (e.0@, e.1@))
}

impl View for CharacterSet {
    type V = RegistryModel;

    closed spec fn view(&self) -> RegistryModel {
        RegistryModel {
            entries: entries_view(self.characters@),
            used_male: self.used_male as nat,
            used_female: self.used_female as nat,
            used_mob: self.used_mob as nat,
        }
    }
}

pub proof fn lemma_index_of(e: Seq<(Seq<char>, CharacterModel)>, id: Seq<char>, i: int)
    requires
        0 <= i <= e.len(),
    ensures
        i <= index_of(e, id, i) <= e.len(),
        index_of(e, id, i) < e.len() ==> e[index_of(e, id, i)].0 == id,
        forall|k: int| i <= k < index_of(e, id, i) ==> e[k].0 != id,
    decreases e.len() - i,
{
    if i < e.len() && e[i].0 != id {
        lemma_index_of(e, id, i + 1);
    }
}

pub proof fn lemma_insert_index(e: Seq<(Seq<char>, CharacterModel)>, id: Seq<char>, i: int)
    requires
        0 <= i <= e.len(),
    ensures
        i <= insert_index(e, id, i) <= e.len(),
        insert_index(e, id, i) < e.len() ==> !text_lt(e[insert_index(e, id, i)].0, id),
        forall|k: int| i <= k < insert_index(e, id, i) ==> text_lt(#[trigger] e[k].0, id),
    decreases e.len() - i,
{
    if i < e.len() && text_lt(e[i].0, id) {
        lemma_insert_index(e, id, i + 1);
    }
}

/// Placing a new ID at its insertion index keeps the entries ordered.
proof fn lemma_insert_sorted(e: Seq<(Seq<char>, CharacterModel)>, id: Seq<char>, c: CharacterModel)
    requires
        sorted_by_id(e),
        index_of(e, id, 0) == e.len(),
    ensures
        sorted_by_id(e.insert(insert_index(e, id, 0), (id, c))),
{
    lemma_index_of(e, id, 0);
    lemma_insert_index(e, id, 0);
    let p = insert_index(e, id, 0);
    let n = e.insert(p, (id, c));
    assert forall|k: int| p <= k < e.len() implies text_lt(id, #[trigger] e[k].0) by {
        lemma_text_lt_total(e[p].0, id);
        if k > p {
            lemma_text_lt_transitive(id, e[p].0, e[k].0);
        }
    }
    assert forall|i: int, j: int| 0 <= i < j < n.len() implies text_lt(
        #[trigger] n[i].0,
        #[trigger] n[j].0,
    ) by {
        if j < p {
        } else if j == p {
        } else if i < p {
            lemma_text_lt_transitive(e[i].0, id, e[j - 1].0);
        } else if i == p {
        } else {
        }
    }
}

impl CharacterSet {
    /// Well-formed: entries ordered by ID, and no more preset registrations than entries.
    pub closed spec fn wf(&self) -> bool {
        &&& sorted_by_id(self@.entries)
        &&& self.used_male + self.used_female + self.used_mob <= self.characters@.len()
    }

    /// Creates a new instance.
    pub fn new() -> (r: CharacterSet)
        ensures
            r.wf(),
            r@.entries.len() == 0,
            r@.used_male == 0,
            r@.used_female == 0,
            r@.used_mob == 0,
    {
        let r = CharacterSet { used_male: 0, used_female: 0, used_mob: 0, characters: Vec::new() };
        assert(r@.entries =~= Seq::empty());
        r
    }

    /// The number of registered characters.
    pub fn len(&self) -> (r: usize)
        ensures
            r == self@.entries.len(),
    {
        self.characters.len()
    }

    /// The index of the entry whose ID is `id`, or the number of entries.
    fn find(&self, id: &Vec<char>) -> (r: usize)
        ensures
            r == index_of(self@.entries, id@, 0),
    {
        let mut i: usize = 0;
        while i < self.characters.len()
            invariant
                i <= self.characters@.len(),
                index_of(self@.entries, id@, 0) == index_of(self@.entries, id@, i as int),
            decreases self.characters@.len() - i,
        {
            let key = chars_of(self.characters[i].0.as_str());
            if crate::text::same_chars(&key, id) {
                return i;
            }
            i = i + 1;
        }
        i
    }

    fn find_insert_index(&self, id: &Vec<char>) -> (r: usize)
        ensures
            r == insert_index(self@.entries, id@, 0),
    {
        let mut i: usize = 0;
        while i < self.characters.len()
            invariant
                i <= self.characters@.len(),
                insert_index(self@.entries, id@, 0) == insert_index(self@.entries, id@, i as int),
            decreases self.characters@.len() - i,
        {
            let key = chars_of(self.characters[i].0.as_str());
            if !less_than(&key, id) {
                return i;
            }
            i = i + 1;
        }
        i
    }

    /// Stores a character under an ID that is not taken yet.
    fn insert_new(&mut self, id: &Vec<char>, c: CharacterType)
        requires
            old(self).wf(),
            !old(self)@.contains(id@),
        ensures
            final(self).characters@.len() == old(self).characters@.len() + 1,
            final(self)@.entries == old(self)@.with_entry(id@, c@),
            final(self).used_male == old(self).used_male,
            final(self).used_female == old(self).used_female,
            final(self).used_mob == old(self).used_mob,
            sorted_by_id(final(self)@.entries),
    {
        let p = self.find_insert_index(id);
        proof {
            lemma_index_of(self@.entries, id@, 0);
            lemma_insert_index(self@.entries, id@, 0);
            lemma_insert_sorted(self@.entries, id@, c@);
        }
        let key = crate::text::string_of(id, 0, id.len());
        assert(key@ =~= id@);
        let ghost before = self.characters@;
        self.characters.insert(p, (key, c));
        assert(entries_view(self.characters@) =~= entries_view(before).insert(p as int, (id@, c@)));
    }

    /// Looks a character up by the characters of its ID.
    pub fn lookup(&self, id: &Vec<char>) -> (r: Option<&CharacterType>)
        ensures
            match self@.lookup(id@) {
                Some(c) => r is Some && r->0@ == c,
                None => r is None,
            },
    {
        let i = self.find(id);
        if i < self.characters.len() {
            proof {
                lemma_index_of(self@.entries, id@, 0);
            }
            Some(&self.characters[i].1)
        } else {
            None
        }
    }

    /// Registers `c` under `id` if the ID is free.
    fn add(&mut self, id: &Vec<char>, c: CharacterType) -> (r: Result<(), SemanticErrorKind>)
        requires
            old(self).wf(),
        ensures
            r is Ok <==> !old(self)@.contains(id@),
            r is Ok ==> final(self).characters@.len() == old(self).characters@.len() + 1
                && final(self)@.entries == old(self)@.with_entry(id@, c@)
                && sorted_by_id(final(self)@.entries),
            r is Err ==> *final(self) == *old(self) && r->Err_0@ == SemanticModel::DuplicateCharacter(id@),
            final(self).used_male == old(self).used_male,
            final(self).used_female == old(self).used_female,
            final(self).used_mob == old(self).used_mob,
    {
        if self.find(id) < self.characters.len() {
            let s = crate::text::string_of(id, 0, id.len());
            assert(s@ =~= id@);
            Err(SemanticErrorKind::DuplicateCharacter(s))
        } else {
            self.insert_new(id, c);
            Ok(())
        }
    }

    /// Adds a male character, by the characters of its ID and name.
    pub fn add_male_chars(&mut self, id: &Vec<char>, name: String) -> (r: Result<(), SemanticErrorKind>)
        requires
            old(self).wf(),
            old(self)@.entries.len() < usize::MAX,
        ensures
            final(self).wf(),
            match old(self)@.add_male(id@, name@) {
                Ok(m) => r is Ok && final(self)@ == m,
                Err(e) => r is Err && r->Err_0@ == e && final(self)@ == old(self)@,
            },
    {
        let n = self.used_male + 1;
        let r = self.add(id, CharacterType::Male(n, name));
        if r.is_ok() {
            self.used_male = n;
        }
        r
    }

    pub fn add_female_chars(&mut self, id: &Vec<char>, name: String) -> (r: Result<(), SemanticErrorKind>)
        requires
            old(self).wf(),
            old(self)@.entries.len() < usize::MAX,
        ensures
            final(self).wf(),
            match old(self)@.add_female(id@, name@) {
                Ok(m) => r is Ok && final(self)@ == m,
                Err(e) => r is Err && r->Err_0@ == e && final(self)@ == old(self)@,
            },
    {
        let n = self.used_female + 1;
        let r = self.add(id, CharacterType::Female(n, name));
        if r.is_ok() {
            self.used_female = n;
        }
        r
    }

    pub fn add_mob_chars(&mut self, id: &Vec<char>, name: String) -> (r: Result<(), SemanticErrorKind>)
        requires
            old(self).wf(),
            old(self)@.entries.len() < usize::MAX,
        ensures
            final(self).wf(),
            match old(self)@.add_mob(id@, name@) {
                Ok(m) => r is Ok && final(self)@ == m,
                Err(e) => r is Err && r->Err_0@ == e && final(self)@ == old(self)@,
            },
    {
        let n = self.used_mob + 1;
        let r = self.add(id, CharacterType::Mob(n, name));
        if r.is_ok() {
            self.used_mob = n;
        }
        r
    }

    pub fn add_custom_chars(&mut self, id: &Vec<char>, name: String, color: String) -> (r: Result<
        (),
        SemanticErrorKind,
    >)
        requires
            old(self).wf(),
        ensures
            final(self).wf(),
            match old(self)@.add_custom(id@, name@, color@) {
                Ok(m) => r is Ok && final(self)@ == m,
                Err(e) => r is Err && r->Err_0@ == e && final(self)@ == old(self)@,
            },
    {
        self.add(id, CharacterType::Custom(color, name))
    }

    /// Adds a male character.
    ///
    /// # Parameters
    /// * `id` - The reference ID
    /// * `name` - The name displayed in document
    pub fn add_male(&mut self, id: &str, name: &str) -> (r: Result<(), SemanticErrorKind>)
        requires
            old(self).wf(),
            old(self)@.entries.len() < usize::MAX,
        ensures
            final(self).wf(),
            match old(self)@.add_male(id@, name@) {
                Ok(m) => r is Ok && final(self)@ == m,
                Err(e) => r is Err && r->Err_0@ == e && final(self)@ == old(self)@,
            },
    {
        self.add_male_chars(&chars_of(id), name.to_owned())
    }

    /// Adds a female character.
    pub fn add_female(&mut self, id: &str, name: &str) -> (r: Result<(), SemanticErrorKind>)
        requires
            old(self).wf(),
            old(self)@.entries.len() < usize::MAX,
        ensures
            final(self).wf(),
            match old(self)@.add_female(id@, name@) {
                Ok(m) => r is Ok && final(self)@ == m,
                Err(e) => r is Err && r->Err_0@ == e && final(self)@ == old(self)@,
            },
    {
        self.add_female_chars(&chars_of(id), name.to_owned())
    }

    /// Adds a mob character.
    pub fn add_mob(&mut self, id: &str, name: &str) -> (r: Result<(), SemanticErrorKind>)
        requires
            old(self).wf(),
            old(self)@.entries.len() < usize::MAX,
        ensures
            final(self).wf(),
            match old(self)@.add_mob(id@, name@) {
                Ok(m) => r is Ok && final(self)@ == m,
                Err(e) => r is Err && r->Err_0@ == e && final(self)@ == old(self)@,
            },
    {
        self.add_mob_chars(&chars_of(id), name.to_owned())
    }

    /// Adds a custom color character.
    ///
    /// # Parameters
    /// * `color` - A colorcode, which consists of 3 or 6 hexadecimal digits
    pub fn add_custom(&mut self, id: &str, name: &str, color: &str) -> (r: Result<
        (),
        SemanticErrorKind,
    >)
        requires
            old(self).wf(),
        ensures
            final(self).wf(),
            match old(self)@.add_custom(id@, name@, color@) {
                Ok(m) => r is Ok && final(self)@ == m,
                Err(e) => r is Err && r->Err_0@ == e && final(self)@ == old(self)@,
            },
    {
        self.add_custom_chars(&chars_of(id), name.to_owned(), color.to_owned())
    }

    /// Gets the character type related to the ID.
    pub fn get(&self, id: &str) -> (r: Option<&CharacterType>)
        ensures
            match self@.lookup(id@) {
                Some(c) => r is Some && r->0@ == c,
                None => r is None,
            },
    {
        self.lookup(&chars_of(id))
    }

    /// Returns the characters with their IDs, ordered by ID.
    pub fn characters(&self) -> (r: &[(String, CharacterType)])
        ensures
            entries_view(r@) == self@.entries,
            self.wf() ==> sorted_by_id(self@.entries),
    {
        self.characters.as_slice()
    }
}

/// Represents block element.
#[derive(PartialEq, Eq, Structural, Clone, Copy, Debug)]
pub enum Block {
    /// Horizontal line
    Horizontal,
    /// A paragraph
    Paragraph,
    /// Section title
    Section,
    /// Subsection title
    Subsection,
    /// Block quotation
    Quotation,
    /// Unordered list
    UnorderedList,
}

/// Represents the sub-type of `Element::Line`.
#[derive(PartialEq, Eq, Structural, Clone, Copy, Debug)]
pub enum LineType {
    /// Shown in a dedicated line with name.
    NameShownBlock,
    /// Shown in a dedicated line without name.
    NameHiddenBlock,
    /// Shown in a inline element.
    Inline,
}

/// Represents inline element.
#[derive(PartialEq, Eq, Debug)]
pub enum Element {
    /// Parameter
    Parameter,
    /// New line
    Newline,
    /// Bold text
    Bold,
    /// Italic text
    Italic,
    /// Dotted text
    Dotted,
    /// Underlined text
    Underlined,
    /// Deleted text
    Deleted,
    /// Monospace font text
    Monospaced,
    /// Link
    Link,
    /// Text with ruby
    Ruby,
    /// List item
    Item,
    /// Line, speech: the character ID and how the line is shown
    Line(String, LineType),
}

/// The mathematical value of an `Element`.
pub enum ElementModel {
    Parameter,
    Newline,
    Bold,
    Italic,
    Dotted,
    Underlined,
    Deleted,
    Monospaced,
    Link,
    Ruby,
    Item,
    Line(Seq<char>, LineType),
}

impl View for Element {
    type V = ElementModel;

    open spec fn view(&self) -> ElementModel {
        match self {
            Element::Parameter => ElementModel::Parameter,
            Element::Newline => ElementModel::Newline,
            Element::Bold => ElementModel::Bold,
            Element::Italic => ElementModel::Italic,
            Element::Dotted => ElementModel::Dotted,
            Element::Underlined => ElementModel::Underlined,
            Element::Deleted => ElementModel::Deleted,
            Element::Monospaced => ElementModel::Monospaced,
            Element::Link => ElementModel::Link,
            Element::Ruby => ElementModel::Ruby,
            Element::Item => ElementModel::Item,
            Element::Line(id, t) => ElementModel::Line(id@, *t),
        }
    }
}

/// Represents a element level node.
#[derive(Debug, PartialEq, Eq)]
pub enum ElementNode {
    /// Plain text node
    Text(String),
    /// Surrounded element node
    Surrounded {
        /// Element type
        kind: Element,
        /// Corresponding parameter nodes
        parameters: Vec<ElementNode>,
        /// Child nodes
        children: Vec<ElementNode>,
    },
}

/// The mathematical value of an `ElementNode`.
pub enum NodeModel {
    Text(Seq<char>),
    Surrounded { kind: ElementModel, parameters: Seq<NodeModel>, children: Seq<NodeModel> },
}

/// The value of a node, subtree by subtree.
pub open spec fn node_view(e: ElementNode) -> NodeModel
    decreases e,
{
    match e {
        ElementNode::Text(t) => NodeModel::Text(t@),
        ElementNode::Surrounded { kind, parameters, children } => NodeModel::Surrounded {
            kind: kind@,
            parameters: Seq::new(
                parameters@.len(),
                |i: int|
                    if 0 <= i < parameters@.len() {
                        node_view(parameters@[i])
                    } else {
                        NodeModel::Text(Seq::empty())
                    },
            ),
            children: Seq::new(
                children@.len(),
                |i: int|
                    if 0 <= i < children@.len() {
                        node_view(children@[i])
                    } else {
                        NodeModel::Text(Seq::empty())
                    },
            ),
        },
    }
}

/// The values of a sequence of nodes.
pub open spec fn nodes_view(v: Seq<ElementNode>) -> Seq<NodeModel> {
    Seq::new(v.len(), |i: int| node_view(v[i]))
}

impl View for ElementNode {
    type V = NodeModel;

    open spec fn view(&self) -> NodeModel {
        node_view(*self)
    }
}

pub proof fn lemma_surrounded_view(kind: Element, parameters: Vec<ElementNode>, children: Vec<ElementNode>)
    ensures
        node_view(ElementNode::Surrounded { kind, parameters, children }) == (NodeModel::Surrounded {
            kind: kind@,
            parameters: nodes_view(parameters@),
            children: nodes_view(children@),
        }),
{
    let n = node_view(ElementNode::Surrounded { kind, parameters, children });
    if let NodeModel::Surrounded { parameters: p, children: c, .. } = n {
        assert(p =~= nodes_view(parameters@));
        assert(c =~= nodes_view(children@));
    }
}

pub proof fn lemma_nodes_view_push(v: Seq<ElementNode>, e: ElementNode)
    ensures
        nodes_view(v.push(e)) == nodes_view(v).push(node_view(e)),
{
    assert(nodes_view(v.push(e)) =~= nodes_view(v).push(node_view(e)));
}

impl ElementNode {
    /// Creates a surrounded node.
    pub fn new_surrounded(kind: Element) -> (r: ElementNode)
        ensures
            r@ == (NodeModel::Surrounded { kind: kind@, parameters: Seq::empty(), children: Seq::empty() }),
    {
        let parameters: Vec<ElementNode> = Vec::new();
        let children: Vec<ElementNode> = Vec::new();
        proof {
            lemma_surrounded_view(kind, parameters, children);
            assert(nodes_view(parameters@) =~= Seq::empty());
        }
        ElementNode::Surrounded { kind, parameters, children }
    }

    /// Takes the children of a parameter node.
    pub fn unwrap_parameter(&self) -> (r: &Vec<ElementNode>)
        requires
            self matches ElementNode::Surrounded { kind: Element::Parameter, .. },
        ensures
            self matches ElementNode::Surrounded { children, .. } && r == &children,
    {
        match self {
            ElementNode::Surrounded { children, .. } => children,
            ElementNode::Text(_) => {
                proof {
                    assert(false);
                }
                unreached()
            },
        }
    }
}

/// Represents a block level node.
#[derive(Debug, PartialEq, Eq)]
pub struct BlockNode {
    /// Block type
    pub kind: Block,
    /// Child nodes
    pub children: Vec<ElementNode>,
}

/// The mathematical value of a `BlockNode`.
pub struct BlockModel {
    pub kind: Block,
    pub children: Seq<NodeModel>,
}

impl View for BlockNode {
    type V = BlockModel;

    open spec fn view(&self) -> BlockModel {
        BlockModel { kind: self.kind, children: nodes_view(self.children@) }
    }
}

/// The values of a sequence of blocks.
pub open spec fn blocks_view(v: Seq<BlockNode>) -> Seq<BlockModel> {
    v.map_values(|b: BlockNode| b@)
}

impl BlockNode {
    pub fn new(kind: Block) -> (r: BlockNode)
        ensures
            r@ == (BlockModel { kind, children: Seq::empty() }),
    {
        let r = BlockNode { kind, children: Vec::new() };
        assert(r@.children =~= Seq::empty());
        r
    }

    /// Checks whether this BlockNode is empty (unused).
    pub fn is_empty(&self) -> (r: bool)
        ensures
            r == (self@.children.len() == 0),
    {
        self.children.len() == 0
    }
}

/// Represents whole S3WF2 document.
#[derive(Debug)]
pub struct Document {
    pub characters: CharacterSet,
    pub blocks: Vec<BlockNode>,
}

/// The mathematical value of a `Document`.
pub struct DocumentModel {
    pub characters: RegistryModel,
    pub blocks: Seq<BlockModel>,
}

impl View for Document {
    type V = DocumentModel;

    open spec fn view(&self) -> DocumentModel {
        DocumentModel { characters: self.characters@, blocks: blocks_view(self.blocks@) }
    }
}

impl Document {
    /// Creates a new instance.
    pub fn new() -> (r: Document)
        ensures
            r.characters.wf(),
            r@.characters.entries.len() == 0,
            r@.characters.used_male == 0,
            r@.characters.used_female == 0,
            r@.characters.used_mob == 0,
            r@.blocks.len() == 0,
    {
        Document { characters: CharacterSet::new(), blocks: Vec::new() }
    }
}

/// Enumeration does not depend on insertion order: two ID-ordered entry lists that hold the
/// same entries are the same list.
pub proof fn sorted_entries_are_determined(
    a: Seq<(Seq<char>, CharacterModel)>,
    b: Seq<(Seq<char>, CharacterModel)>,
)
    requires
        sorted_by_id(a),
        sorted_by_id(b),
        forall|x: (Seq<char>, CharacterModel)| a.contains(x) <==> b.contains(x),
    ensures
        a == b,
    decreases a.len(),
{
    if a.len() == 0 {
        if b.len() > 0 {
            assert(b.contains(b[0]));
        }
        assert(a =~= b);
    } else {
        assert(a.contains(a[0]));
        let j = choose|j: int| 0 <= j < b.len() && b[j] == a[0];
        assert(b.contains(b[0]));
        let k = choose|k: int| 0 <= k < a.len() && a[k] == b[0];
        if j > 0 {
            assert(text_lt(b[0].0, b[j].0));
            if k > 0 {
                assert(text_lt(a[0].0, a[k].0));
                lemma_text_lt_asymmetric(a[0].0, a[k].0);
            } else {
                lemma_text_lt_irreflexive(a[0].0);
            }
        }
        assert(a[0] == b[0]);
        let ra = a.drop_first();
        let rb = b.drop_first();
        assert forall|x: (Seq<char>, CharacterModel)| ra.contains(x) implies rb.contains(x) by {
            let i = choose|i: int| 0 <= i < ra.len() && ra[i] == x;
            assert(a[i + 1] == x);
            assert(a.contains(x));
            let m = choose|m: int| 0 <= m < b.len() && b[m] == x;
            assert(text_lt(a[0].0, a[i + 1].0));
            if m == 0 {
                lemma_text_lt_irreflexive(a[0].0);
            }
            assert(rb[m - 1] == x);
        }
        assert forall|x: (Seq<char>, CharacterModel)| rb.contains(x) implies ra.contains(x) by {
            let i = choose|i: int| 0 <= i < rb.len() && rb[i] == x;
            assert(b[i + 1] == x);
            assert(b.contains(x));
            let m = choose|m: int| 0 <= m < a.len() && a[m] == x;
            assert(text_lt(b[0].0, b[i + 1].0));
            if m == 0 {
                lemma_text_lt_irreflexive(b[0].0);
            }
            assert(ra[m - 1] == x);
        }
        assert(sorted_by_id(ra)) by {
            assert forall|i: int, j2: int| 0 <= i < j2 < ra.len() implies text_lt(
                #[trigger] ra[i].0,
                #[trigger] ra[j2].0,
            ) by {
                assert(ra[i] == a[i + 1] && ra[j2] == a[j2 + 1]);
            }
        }
        assert(sorted_by_id(rb)) by {
            assert forall|i: int, j2: int| 0 <= i < j2 < rb.len() implies text_lt(
                #[trigger] rb[i].0,
                #[trigger] rb[j2].0,
            ) by {
                assert(rb[i] == b[i + 1] && rb[j2] == b[j2 + 1]);
            }
        }
        sorted_entries_are_determined(ra, rb);
        assert(a =~= seq![a[0]] + ra);
        assert(b =~= seq![b[0]] + rb);
    }
}

/// Registries enumerate in increasing ID order, and two registries that hold the same
/// characters enumerate them in the same order, whichever order they were added in.
pub proof fn enumeration_follows_id_order(r1: &CharacterSet, r2: &CharacterSet)
    requires
        r1.wf(),
        r2.wf(),
        forall|x: (Seq<char>, CharacterModel)| r1@.entries.contains(x) <==> r2@.entries.contains(x),
    ensures
        forall|i: int, j: int|
            0 <= i < j < r1@.entries.len() ==> text_lt(
                #[trigger] r1@.entries[i].0,
                #[trigger] r1@.entries[j].0,
            ),
        r1@.entries == r2@.entries,
{
    sorted_entries_are_determined(r1@.entries, r2@.entries);
}

// Debug dumps ------------------------------------------------------------------

fn append(out: &mut String, s: &str)
    ensures
        final(out)@ == old(out)@ + s@,
{
    out.append(s);
}

/// `{name} ({kind}, #{ordinal or color})`
pub open spec fn character_text(c: CharacterModel) -> Seq<char> {
    match c {
        CharacterModel::Male(i, n) => n + " (Male, #"@ + decimal(i) + ")"@,
        CharacterModel::Female(i, n) => n + " (Female, #"@ + decimal(i) + ")"@,
        CharacterModel::Mob(i, n) => n + " (Mob, #"@ + decimal(i) + ")"@,
        CharacterModel::Custom(color, n) => n + " (Custom, #"@ + color + ")"@,
    }
}

/// `"{id}" => {character}, ` for each of the first `i` entries.
pub open spec fn entries_text(e: Seq<(Seq<char>, CharacterModel)>, i: int) -> Seq<char>
    decreases i,
{
    if i <= 0 || i > e.len() {
        Seq::empty()
    } else {
        entries_text(e, i - 1) + "\""@ + e[i - 1].0 + "\" => "@ + character_text(e[i - 1].1) + ", "@
    }
}

pub open spec fn registry_text(r: RegistryModel) -> Seq<char> {
    "Characters ["@ + entries_text(r.entries, r.entries.len() as int) + "]"@
}

pub open spec fn block_kind_text(k: Block) -> Seq<char> {
    match k {
        Block::Horizontal => "Horizontal"@,
        Block::Paragraph => "Paragraph"@,
        Block::Section => "Section"@,
        Block::Subsection => "Subsection"@,
        Block::Quotation => "Quotation"@,
        Block::UnorderedList => "UnorderedList"@,
    }
}

pub open spec fn line_type_text(t: LineType) -> Seq<char> {
    match t {
        LineType::NameShownBlock => "NameShownBlock"@,
        LineType::NameHiddenBlock => "NameHiddenBlock"@,
        LineType::Inline => "Inline"@,
    }
}

pub open spec fn element_text(k: ElementModel) -> Seq<char> {
    match k {
        ElementModel::Parameter => "Parameter"@,
        ElementModel::Newline => "Newline"@,
        ElementModel::Bold => "Bold"@,
        ElementModel::Italic => "Italic"@,
        ElementModel::Dotted => "Dotted"@,
        ElementModel::Underlined => "Underlined"@,
        ElementModel::Deleted => "Deleted"@,
        ElementModel::Monospaced => "Monospaced"@,
        ElementModel::Link => "Link"@,
        ElementModel::Ruby => "Ruby"@,
        ElementModel::Item => "Item"@,
        ElementModel::Line(id, t) => "Line(\""@ + id + "\", "@ + line_type_text(t) + ")"@,
    }
}

/// A text node in quotes; a surrounded node as `[{kind} {child}, {child}, ]`.
pub open spec fn node_text(e: NodeModel) -> Seq<char>
    decreases e, 1int,
{
    match e {
        NodeModel::Text(t) => "\""@ + t + "\""@,
        NodeModel::Surrounded { kind, children, .. } => "["@ + element_text(kind) + " "@
            + nodes_text(children, children.len() as int) + "]"@,
    }
}

/// `{node}, ` for each of the first `i` nodes.
pub open spec fn nodes_text(s: Seq<NodeModel>, i: int) -> Seq<char>
    decreases s, 0int, i,
{
    if i <= 0 || i > s.len() {
        Seq::empty()
    } else {
        nodes_text(s, i - 1) + node_text(s[i - 1]) + ", "@
    }
}

pub open spec fn block_text(b: BlockModel) -> Seq<char> {
    block_kind_text(b.kind) + " ["@ + nodes_text(b.children, b.children.len() as int) + "]"@
}

/// `  {block}\n` for each of the first `i` blocks.
pub open spec fn blocks_text(bs: Seq<BlockModel>, i: int) -> Seq<char>
    decreases i,
{
    if i <= 0 || i > bs.len() {
        Seq::empty()
    } else {
        blocks_text(bs, i - 1) + "  "@ + block_text(bs[i - 1]) + "\n"@
    }
}

pub open spec fn document_text(d: DocumentModel) -> Seq<char> {
    "Document {\n  "@ + registry_text(d.characters) + "\n"@ + blocks_text(d.blocks, d.blocks.len() as int)
        + "}\n"@
}

impl CharacterType {
    /// Appends `{name} ({kind}, #{ordinal or color})`.
    pub fn describe(&self, out: &mut String)
        ensures
            final(out)@ == old(out)@ + character_text(self@),
    {
        match self {
            CharacterType::Male(i, n) => {
                append(out, n.as_str());
                append(out, " (Male, #");
                push_decimal(out, *i);
            },
            CharacterType::Female(i, n) => {
                append(out, n.as_str());
                append(out, " (Female, #");
                push_decimal(out, *i);
            },
            CharacterType::Mob(i, n) => {
                append(out, n.as_str());
                append(out, " (Mob, #");
                push_decimal(out, *i);
            },
            CharacterType::Custom(color, n) => {
                append(out, n.as_str());
                append(out, " (Custom, #");
                append(out, color.as_str());
            },
        }
        append(out, ")");
        assert(final(out)@ =~= old(out)@ + character_text(self@));
    }
}

impl CharacterSet {
    /// Appends `Characters [` and each entry as `"{id}" => {character}, ` and `]`.
    pub fn describe(&self, out: &mut String)
        ensures
            final(out)@ == old(out)@ + registry_text(self@),
    {
        append(out, "Characters [");
        let ghost start = out@;
        let ghost e = self@.entries;
        let entries = self.characters();
        let mut i: usize = 0;
        assert(start =~= start + entries_text(e, 0));
        while i < entries.len()
            invariant
                i <= entries@.len(),
                entries_view(entries@) == e,
                out@ == start + entries_text(e, i as int),
            decreases entries@.len() - i,
        {
            append(out, "\"");
            append(out, entries[i].0.as_str());
            append(out, "\" => ");
            entries[i].1.describe(out);
            append(out, ", ");
            proof {
                assert(e[i as int] == (entries@[i as int].0@, entries@[i as int].1@));
                assert(out@ =~= start + entries_text(e, i + 1));
            }
            i = i + 1;
        }
        append(out, "]");
        assert(e.len() == entries@.len());
        assert(final(out)@ =~= old(out)@ + registry_text(self@));
    }
}

impl Block {
    pub fn describe(&self, out: &mut String)
        ensures
            final(out)@ == old(out)@ + block_kind_text(*self),
    {
        match self {
            Block::Horizontal => append(out, "Horizontal"),
            Block::Paragraph => append(out, "Paragraph"),
            Block::Section => append(out, "Section"),
            Block::Subsection => append(out, "Subsection"),
            Block::Quotation => append(out, "Quotation"),
            Block::UnorderedList => append(out, "UnorderedList"),
        }
    }
}

impl Element {
    pub fn describe(&self, out: &mut String)
        ensures
            final(out)@ == old(out)@ + element_text(self@),
    {
        match self {
            Element::Parameter => append(out, "Parameter"),
            Element::Newline => append(out, "Newline"),
            Element::Bold => append(out, "Bold"),
            Element::Italic => append(out, "Italic"),
            Element::Dotted => append(out, "Dotted"),
            Element::Underlined => append(out, "Underlined"),
            Element::Deleted => append(out, "Deleted"),
            Element::Monospaced => append(out, "Monospaced"),
            Element::Link => append(out, "Link"),
            Element::Ruby => append(out, "Ruby"),
            Element::Item => append(out, "Item"),
            Element::Line(id, t) => {
                append(out, "Line(\"");
                append(out, id.as_str());
                append(out, "\", ");
                match t {
                    LineType::NameShownBlock => append(out, "NameShownBlock"),
                    LineType::NameHiddenBlock => append(out, "NameHiddenBlock"),
                    LineType::Inline => append(out, "Inline"),
                }
                append(out, ")");
                assert(final(out)@ =~= old(out)@ + element_text(self@));
            },
        }
    }
}

/// Appends `{node}, ` for each node of `v`.
fn describe_nodes(out: &mut String, v: &Vec<ElementNode>)
    ensures
        final(out)@ == old(out)@ + nodes_text(nodes_view(v@), v@.len() as int),
    decreases v, 0int,
{
    let ghost s = nodes_view(v@);
    let ghost start = out@;
    let mut i: usize = 0;
    assert(start =~= start + nodes_text(s, 0));
    while i < v.len()
        invariant
            i <= v@.len(),
            s == nodes_view(v@),
            out@ == start + nodes_text(s, i as int),
        decreases v@.len() - i,
    {
        v[i].describe(out);
        append(out, ", ");
        proof {
            assert(s[i as int] == node_view(v@[i as int]));
            assert(out@ =~= start + nodes_text(s, i + 1));
        }
        i = i + 1;
    }
}

impl ElementNode {
    /// Appends a text node in quotes, or a surrounded node as `[{kind} {child}, ]`.
    pub fn describe(&self, out: &mut String)
        ensures
            final(out)@ == old(out)@ + node_text(self@),
        decreases self, 1int,
    {
        match self {
            ElementNode::Text(t) => {
                append(out, "\"");
                append(out, t.as_str());
                append(out, "\"");
            },
            ElementNode::Surrounded { kind, parameters, children } => {
                proof {
                    lemma_surrounded_view(*kind, *parameters, *children);
                }
                append(out, "[");
                kind.describe(out);
                append(out, " ");
                describe_nodes(out, children);
                append(out, "]");
            },
        }
        assert(final(out)@ =~= old(out)@ + node_text(self@));
    }
}

impl BlockNode {
    /// Appends `{kind} [{child}, ]`.
    pub fn describe(&self, out: &mut String)
        ensures
            final(out)@ == old(out)@ + block_text(self@),
    {
        self.kind.describe(out);
        append(out, " [");
        describe_nodes(out, &self.children);
        append(out, "]");
        assert(final(out)@ =~= old(out)@ + block_text(self@));
    }
}

impl Document {
    /// A dump of the document: its characters, then one line per block.
    pub fn describe(&self) -> (r: String)
        ensures
            r@ == document_text(self@),
    {
        let mut out = String::new();
        append(&mut out, "Document {\n  ");
        self.characters.describe(&mut out);
        append(&mut out, "\n");
        let ghost start = out@;
        let ghost bs = self@.blocks;
        let mut i: usize = 0;
        assert(start =~= start + blocks_text(bs, 0));
        while i < self.blocks.len()
            invariant
                i <= self.blocks@.len(),
                bs == self@.blocks,
                out@ == start + blocks_text(bs, i as int),
            decreases self.blocks@.len() - i,
        {
            append(&mut out, "  ");
            self.blocks[i].describe(&mut out);
            append(&mut out, "\n");
            proof {
                assert(out@ =~= start + blocks_text(bs, i + 1));
            }
            i = i + 1;
        }
        append(&mut out, "}\n");
        assert(out@ =~= document_text(self@));
        out
    }
}

/// An ID is registered exactly when some entry carries it.
pub proof fn lemma_contains_iff(e: Seq<(Seq<char>, CharacterModel)>, id: Seq<char>)
    ensures
        (index_of(e, id, 0) < e.len()) <==> exists|j: int| 0 <= j < e.len() && (#[trigger] e[j]).0 == id,
{
    lemma_index_of(e, id, 0);
    if exists|j: int| 0 <= j < e.len() && (#[trigger] e[j]).0 == id {
        let j = choose|j: int| 0 <= j < e.len() && (#[trigger] e[j]).0 == id;
        assert(!(j < index_of(e, id, 0)));
    }
}

/// The second registry holds every ID of the first.
pub open spec fn grows(a: RegistryModel, b: RegistryModel) -> bool {
    forall|k: Seq<char>| a.contains(k) ==> #[trigger] b.contains(k)
}

/// Adding an entry keeps every registered ID registered.
pub proof fn lemma_with_entry_grows(reg: RegistryModel, id: Seq<char>, c: CharacterModel, r: RegistryModel)
    requires
        r.entries == reg.with_entry(id, c),
    ensures
        grows(reg, r),
{
    lemma_insert_index(reg.entries, id, 0);
    let p = insert_index(reg.entries, id, 0);
    assert forall|k: Seq<char>| reg.contains(k) implies #[trigger] r.contains(k) by {
        lemma_contains_iff(reg.entries, k);
        lemma_contains_iff(r.entries, k);
        let j = choose|j: int| 0 <= j < reg.entries.len() && (#[trigger] reg.entries[j]).0 == k;
        if j < p {
            assert(r.entries[j] == reg.entries[j]);
        } else {
            assert(r.entries[j + 1] == reg.entries[j]);
        }
    }
}

/// IDs in strictly increasing order.
pub open spec fn ids_sorted(a: Seq<Seq<char>>) -> bool {
    forall|i: int, j: int| 0 <= i < j < a.len() ==> text_lt(#[trigger] a[i], #[trigger] a[j])
}

/// Two strictly increasing ID lists that hold the same IDs are the same list.
pub proof fn sorted_ids_are_determined(a: Seq<Seq<char>>, b: Seq<Seq<char>>)
    requires
        ids_sorted(a),
        ids_sorted(b),
        forall|x: Seq<char>| a.contains(x) <==> b.contains(x),
    ensures
        a == b,
    decreases a.len(),
{
    if a.len() == 0 {
        if b.len() > 0 {
            assert(b.contains(b[0]));
        }
        assert(a =~= b);
    } else {
        assert(a.contains(a[0]));
        let j = choose|j: int| 0 <= j < b.len() && b[j] == a[0];
        assert(b.contains(b[0]));
        let k = choose|k: int| 0 <= k < a.len() && a[k] == b[0];
        if j > 0 {
            assert(text_lt(b[0], b[j]));
            if k > 0 {
                assert(text_lt(a[0], a[k]));
                lemma_text_lt_asymmetric(a[0], a[k]);
            } else {
                lemma_text_lt_irreflexive(a[0]);
            }
        }
        let ra = a.drop_first();
        let rb = b.drop_first();
        assert forall|x: Seq<char>| ra.contains(x) implies rb.contains(x) by {
            let i = choose|i: int| 0 <= i < ra.len() && ra[i] == x;
            assert(a[i + 1] == x);
            assert(a.contains(x));
            let m = choose|m: int| 0 <= m < b.len() && b[m] == x;
            assert(text_lt(a[0], a[i + 1]));
            if m == 0 {
                lemma_text_lt_irreflexive(a[0]);
            }
            assert(rb[m - 1] == x);
        }
        assert forall|x: Seq<char>| rb.contains(x) implies ra.contains(x) by {
            let i = choose|i: int| 0 <= i < rb.len() && rb[i] == x;
            assert(b[i + 1] == x);
            assert(b.contains(x));
            let m = choose|m: int| 0 <= m < a.len() && a[m] == x;
            assert(text_lt(b[0], b[i + 1]));
            if m == 0 {
                lemma_text_lt_irreflexive(b[0]);
            }
            assert(ra[m - 1] == x);
        }
        assert(ids_sorted(ra)) by {
            assert forall|i: int, j2: int| 0 <= i < j2 < ra.len() implies text_lt(
                #[trigger] ra[i],
                #[trigger] ra[j2],
            ) by {
                assert(ra[i] == a[i + 1] && ra[j2] == a[j2 + 1]);
            }
        }
        assert(ids_sorted(rb)) by {
            assert forall|i: int, j2: int| 0 <= i < j2 < rb.len() implies text_lt(
                #[trigger] rb[i],
                #[trigger] rb[j2],
            ) by {
                assert(rb[i] == b[i + 1] && rb[j2] == b[j2 + 1]);
            }
        }
        sorted_ids_are_determined(ra, rb);
        assert(a =~= seq![a[0]] + ra);
        assert(b =~= seq![b[0]] + rb);
    }
}

/// The IDs of the entries, in enumeration order.
pub open spec fn ids_of(e: Seq<(Seq<char>, CharacterModel)>) -> Seq<Seq<char>> {
    e.map_values(|x: (Seq<char>, CharacterModel)| x.0)
}

proof fn lemma_ids_of(e: Seq<(Seq<char>, CharacterModel)>)
    requires
        sorted_by_id(e),
    ensures
        ids_sorted(ids_of(e)),
        forall|id: Seq<char>| ids_of(e).contains(id) <==> (index_of(e, id, 0) < e.len()),
{
    let a = ids_of(e);
    assert forall|i: int, j: int| 0 <= i < j < a.len() implies text_lt(#[trigger] a[i], #[trigger] a[j]) by {
        assert(a[i] == e[i].0 && a[j] == e[j].0);
    }
    assert forall|id: Seq<char>| a.contains(id) <==> (index_of(e, id, 0) < e.len()) by {
        lemma_contains_iff(e, id);
        if a.contains(id) {
            let j = choose|j: int| 0 <= j < a.len() && a[j] == id;
            assert(e[j].0 == id);
        }
        if index_of(e, id, 0) < e.len() {
            let j = choose|j: int| 0 <= j < e.len() && (#[trigger] e[j]).0 == id;
            assert(a[j] == id);
        }
    }
}

/// Enumeration order depends on the registered IDs alone: two registries that hold the same
/// IDs list them in the same order, whichever order they were registered in and whatever kinds
/// and ordinals the characters got.
pub proof fn enumeration_order_depends_on_ids_only(r1: &CharacterSet, r2: &CharacterSet)
    requires
        r1.wf(),
        r2.wf(),
        forall|id: Seq<char>| r1@.contains(id) <==> r2@.contains(id),
    ensures
        ids_of(r1@.entries) == ids_of(r2@.entries),
        ids_sorted(ids_of(r1@.entries)),
{
    lemma_ids_of(r1@.entries);
    lemma_ids_of(r2@.entries);
    assert forall|x: Seq<char>| ids_of(r1@.entries).contains(x) <==> ids_of(r2@.entries).contains(x) by {
        assert(r1@.contains(x) <==> r2@.contains(x));
    }
    sorted_ids_are_determined(ids_of(r1@.entries), ids_of(r2@.entries));
}

} // verus!
