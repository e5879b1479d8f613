use vstd::prelude::*;

use crate::position::{Position, Range};
use crate::response_item::{Item, ItemKind, ItemKindView, ItemView};

verus! {

/// What a symbol is.
#[derive(Clone, Copy, Debug, PartialEq, Eq, Hash, Structural)]
pub enum SymbolKindTag {
    Variable,
    Function,
    Module,
    Keyword,
}

impl SymbolKindTag {
    /// What an item of a kind is.
    pub open spec fn of(kind: ItemKindView) -> SymbolKindTag {
        match kind {
            ItemKindView::Variable => SymbolKindTag::Variable,
            ItemKindView::Function { .. } => SymbolKindTag::Function,
            ItemKindView::Module { .. } => SymbolKindTag::Module,
            ItemKindView::Keyword => SymbolKindTag::Keyword,
        }
    }

    /// What an item of a kind is.
    pub fn from_item_kind(kind: &ItemKind) -> (tag: SymbolKindTag)
        ensures
            tag == SymbolKindTag::of(kind@),
    {
        match kind {
            ItemKind::Variable => SymbolKindTag::Variable,
            ItemKind::Function { .. } => SymbolKindTag::Function,
            ItemKind::Module { .. } => SymbolKindTag::Module,
            ItemKind::Keyword => SymbolKindTag::Keyword,
        }
    }
}

/// A position as part of a key.
#[derive(Clone, Copy, Debug, PartialEq, Eq, Hash, Structural)]
pub struct PositionKey {
    pub line: u32,
    pub character: u32,
}

impl PositionKey {
    /// The key of a position.
    pub open spec fn of(position: Position) -> PositionKey {
        PositionKey { line: position.line, character: position.character }
    }
}

impl vstd::std_specs::convert::FromSpecImpl<Position> for PositionKey {
    open spec fn obeys_from_spec() -> bool {
        true
    }

    open spec fn from_spec(position: Position) -> PositionKey {
        PositionKey::of(position)
    }
}

impl From<Position> for PositionKey {
    fn from(position: Position) -> (key: PositionKey) {
        PositionKey { line: position.line, character: position.character }
    }
}

impl vstd::std_specs::convert::FromSpecImpl<&Position> for PositionKey {
    open spec fn obeys_from_spec() -> bool {
        true
    }

    open spec fn from_spec(position: &Position) -> PositionKey {
        PositionKey::of(*position)
    }
}

impl From<&Position> for PositionKey {
    fn from(position: &Position) -> (key: PositionKey) {
        PositionKey { line: position.line, character: position.character }
    }
}

/// A range as a key.
#[derive(Clone, Copy, Debug, PartialEq, Eq, Hash, Structural)]
pub struct RangeKey {
    pub start: PositionKey,
    pub end: PositionKey,
}

impl RangeKey {
    /// The key of a range.
    pub open spec fn of(range: Range) -> RangeKey {
        RangeKey { start: PositionKey::of(range.start), end: PositionKey::of(range.end) }
    }

    /// The key as one number.
    pub open spec fn packed(self) -> int {
        ((self.start.line * 0x1_0000_0000 + self.start.character) * 0x1_0000_0000 + self.end.line)
            * 0x1_0000_0000 + self.end.character
    }

    /// The key as one number.
    pub fn pack(&self) -> (number: u128)
        ensures
            number == self.packed(),
    {
        let start: u128 = self.start.line as u128 * 0x1_0000_0000 + self.start.character as u128;
        let end: u128 = self.end.line as u128 * 0x1_0000_0000 + self.end.character as u128;
        assert(start <= 0xffff_ffff_ffff_ffff);
        assert(end <= 0xffff_ffff_ffff_ffff);
        start * 0x1_0000_0000_0000_0000 + end
    }

    /// Different keys are different numbers.
    pub proof fn lemma_packed_injective(a: RangeKey, b: RangeKey)
        requires
            a.packed() == b.packed(),
        ensures
            a == b,
    {
    }

    /// Different ranges have different keys.
    pub proof fn law_range_keys_differ(a: Range, b: Range)
        requires
            RangeKey::of(a) == RangeKey::of(b),
        ensures
            a == b,
    {
    }
}

impl vstd::std_specs::convert::FromSpecImpl<Range> for RangeKey {
    open spec fn obeys_from_spec() -> bool {
        true
    }

    open spec fn from_spec(range: Range) -> RangeKey {
        RangeKey::of(range)
    }
}

impl From<Range> for RangeKey {
    fn from(range: Range) -> (key: RangeKey) {
        RangeKey { start: PositionKey::from(range.start), end: PositionKey::from(range.end) }
    }
}

impl vstd::std_specs::convert::FromSpecImpl<&Range> for RangeKey {
    open spec fn obeys_from_spec() -> bool {
        true
    }

    open spec fn from_spec(range: &Range) -> RangeKey {
        RangeKey::of(*range)
    }
}

impl From<&Range> for RangeKey {
    fn from(range: &Range) -> (key: RangeKey) {
        RangeKey { start: PositionKey::from(&range.start), end: PositionKey::from(&range.end) }
    }
}

/// A symbol that a file declares.
#[derive(Debug)]
pub struct SymbolKey {
    pub url: String,
    pub name: String,
    pub kind: SymbolKindTag,
    pub range: RangeKey,
    pub is_top_level: bool,
}

/// The model of a [`SymbolKey`].
#[verifier::ext_equal]
pub struct SymbolView {
    pub url: Seq<char>,
    pub name: Seq<char>,
    pub kind: SymbolKindTag,
    pub range: RangeKey,
    pub is_top_level: bool,
}

impl View for SymbolKey {
    type V = SymbolView;

    open spec fn view(&self) -> SymbolView {
        SymbolView {
            url: self.url@,
            name: self.name@,
            kind: self.kind,
            range: self.range,
            is_top_level: self.is_top_level,
        }
    }
}

impl SymbolKey {
    /// Whether two keys stand for the same symbol.
    pub fn same(&self, other: &SymbolKey) -> (r: bool)
        ensures
            r == (self@ == other@),
    {
        self.range == other.range && self.kind == other.kind && self.is_top_level
            == other.is_top_level && self.name == other.name && self.url == other.url
    }

    /// A copy.
    pub fn copy(&self) -> (copy: SymbolKey)
        ensures
            copy@ == self@,
    {
        SymbolKey {
            url: self.url.clone(),
            name: self.name.clone(),
            kind: self.kind,
            range: self.range,
            is_top_level: self.is_top_level,
        }
    }
}

/// What an identifier stands for.
#[derive(Debug)]
pub enum ResolvedSymbol {
    Workspace(SymbolKey),
    Builtin { name: String, kind: SymbolKindTag },
}

/// The model of a [`ResolvedSymbol`].
#[verifier::ext_equal]
pub enum ResolvedView {
    Workspace(SymbolView),
    Builtin { name: Seq<char>, kind: SymbolKindTag },
}

impl View for ResolvedSymbol {
    type V = ResolvedView;

    open spec fn view(&self) -> ResolvedView {
        match self {
            ResolvedSymbol::Workspace(symbol) => ResolvedView::Workspace(symbol@),
            ResolvedSymbol::Builtin { name, kind } => ResolvedView::Builtin {
                name: name@,
                kind: *kind,
            },
        }
    }
}

impl ResolvedSymbol {
    /// A copy.
    pub fn copy(&self) -> (copy: ResolvedSymbol)
        ensures
            copy@ == self@,
    {
        match self {
            ResolvedSymbol::Workspace(symbol) => ResolvedSymbol::Workspace(symbol.copy()),
            ResolvedSymbol::Builtin { name, kind } => ResolvedSymbol::Builtin {
                name: name.clone(),
                kind: *kind,
            },
        }
    }
}

/// The symbol that an item stands for.
pub open spec fn symbol_of(item: ItemView) -> ResolvedView {
    let kind = SymbolKindTag::of(item.kind);
    match item.url {
        Some(url) => ResolvedView::Workspace(
            SymbolView {
                url,
                name: item.name,
                kind,
                range: RangeKey::of(item.range),
                is_top_level: item.is_top_level,
            },
        ),
        None => ResolvedView::Builtin { name: item.name, kind },
    }
}

/// The symbol that an item stands for: one of a file, or one of the language itself where the
/// item belongs to no file.
pub fn resolved_symbol_from_item(item: &Item) -> (symbol: ResolvedSymbol)
    ensures
        symbol@ == symbol_of(item@),
{
    let kind = SymbolKindTag::from_item_kind(&item.kind);
    match &item.url {
        Some(url) => ResolvedSymbol::Workspace(
            SymbolKey {
                url: url.clone(),
                name: item.name.clone(),
                kind,
                range: RangeKey::from(item.range),
                is_top_level: item.is_top_level,
            },
        ),
        None => ResolvedSymbol::Builtin { name: item.name.clone(), kind },
    }
}

/// A place where a symbol is named.
#[derive(Debug)]
pub struct Occurrence {
    pub url: String,
    pub range: Range,
}

/// The model of an [`Occurrence`].
#[verifier::ext_equal]
pub struct OccurrenceView {
    pub url: Seq<char>,
    pub range: Range,
}

impl View for Occurrence {
    type V = OccurrenceView;

    open spec fn view(&self) -> OccurrenceView {
        OccurrenceView { url: self.url@, range: self.range }
    }
}

impl Occurrence {
    /// Whether two occurrences are the same place.
    pub fn same(&self, other: &Occurrence) -> (r: bool)
        ensures
            r == (self@ == other@),
    {
        self.range == other.range && self.url == other.url
    }

    /// A copy.
    pub fn copy(&self) -> (copy: Occurrence)
        ensures
            copy@ == self@,
    {
        Occurrence { url: self.url.clone(), range: self.range }
    }
}

/// The models of a list of occurrences.
pub open spec fn occurrence_views(list: Seq<Occurrence>) -> Seq<OccurrenceView> {
    list.map_values(|o: Occurrence| o@)
}

/// A copy of a list of occurrences.
pub fn copy_occurrences(list: &Vec<Occurrence>) -> (copy: Vec<Occurrence>)
    ensures
        occurrence_views(copy@) == occurrence_views(list@),
{
    let mut copy: Vec<Occurrence> = Vec::new();
    let mut i: usize = 0;
    while i < list.len()
        invariant
            i <= list@.len(),
            copy@.len() == i,
            forall|j: int| 0 <= j < i ==> (#[trigger] copy@[j])@ == list@[j]@,
        decreases list@.len() - i,
    {
        copy.push(list[i].copy());
        i += 1;
    }
    assert(occurrence_views(copy@) =~= occurrence_views(list@));
    copy
}

} // verus!
