//! The compact block-state representation: a global table of enumerated
//! properties, and per-block records that reference it.

use vstd::prelude::*;
use crate::identifier::{Identifier, IdentifierView};
use crate::metadata::{MetaData, MetaDataView};
use crate::property::EnumProperty;

verus! {

/// The mathematical image of `PropertyValue`.
pub enum PropertyValueView {
    Range(u8, u8),
    Text(Seq<char>),
}

/// How one property of a compact block reads: an inclusive integer range, or
/// a text marker that is either `"bool"` or the final name of an enumerated
/// property in the global table.
#[derive(Debug)]
pub enum PropertyValue {
    Range(u8, u8),
    Text(String),
}

impl View for PropertyValue {
    type V = PropertyValueView;

    open spec fn view(&self) -> PropertyValueView {
        match self {
            PropertyValue::Range(lo, hi) => PropertyValueView::Range(*lo, *hi),
            PropertyValue::Text(t) => PropertyValueView::Text(t@),
        }
    }
}

impl PropertyValue {
    /// The marker of a Boolean property.
    pub fn bool() -> (r: PropertyValue)
        ensures
            r@ == PropertyValueView::Text("bool"@),
    {
        PropertyValue::Text(String::from_str("bool"))
    }

    /// A reference into the global table by final property name.
    pub fn enum_name(value: &str) -> (r: PropertyValue)
        ensures
            r@ == PropertyValueView::Text(value@),
    {
        PropertyValue::Text(value.to_owned())
    }

    /// An inclusive integer range.
    pub fn range(start: u8, end: u8) -> (r: PropertyValue)
        ensures
            r@ == PropertyValueView::Range(start, end),
    {
        PropertyValue::Range(start, end)
    }

    /// A copy of this value.
    pub fn duplicate(&self) -> (r: PropertyValue)
        ensures
            r@ == self@,
    {
        match self {
            PropertyValue::Range(lo, hi) => PropertyValue::Range(*lo, *hi),
            PropertyValue::Text(t) => PropertyValue::Text(t.clone()),
        }
    }

    /// Whether the two values read the same.
    pub fn value_eq(&self, other: &PropertyValue) -> (r: bool)
        ensures
            r == (self@ == other@),
    {
        match (self, other) {
            (PropertyValue::Range(a, b), PropertyValue::Range(c, d)) => a == c && b == d,
            (PropertyValue::Text(a), PropertyValue::Text(b)) => a.eq(b),
            _ => false,
        }
    }

    /// Whether this value marks an integer range.
    pub fn is_range(&self) -> (r: bool)
        ensures
            r == (self@ is Range),
    {
        match self {
            PropertyValue::Range(_, _) => true,
            PropertyValue::Text(_) => false,
        }
    }

    /// Whether this value references an enumerated property, which every
    /// text marker other than `"bool"` does.
    pub fn is_enum(&self) -> (r: bool)
        ensures
            r == (self@ matches PropertyValueView::Text(t) && t != "bool"@),
    {
        match self {
            PropertyValue::Range(_, _) => false,
            PropertyValue::Text(t) => !t.eq(&String::from_str("bool")),
        }
    }
}

/// The mathematical image of `ModernBlockData`.
pub struct ModernBlockDataView {
    pub kinds: Seq<(Seq<char>, PropertyValueView)>,
    pub base_id: int,
    pub default_id: Option<int>,
}

/// One block of the compact representation: its properties in declared
/// order, its base id, and its default id when that differs from the base.
#[derive(Debug)]
pub struct ModernBlockData {
    pub kinds: Vec<(String, PropertyValue)>,
    pub base_id: i32,
    pub default_id: Option<i32>,
}

/// The view of a property list of a compact block.
pub open spec fn kinds_view(kinds: Seq<(String, PropertyValue)>) -> Seq<
    (Seq<char>, PropertyValueView),
> {
    Seq::new(kinds.len(), |i: int| (kinds[i].0@, kinds[i].1@))
}

impl View for ModernBlockData {
    type V = ModernBlockDataView;

    open spec fn view(&self) -> ModernBlockDataView {
        ModernBlockDataView {
            kinds: kinds_view(self.kinds@),
            base_id: self.base_id as int,
            default_id: match self.default_id {
                Some(id) => Some(id as int),
                None => None,
            },
        }
    }
}

impl ModernBlockData {
    /// Bundles one compact block record.
    pub fn new(kinds: Vec<(String, PropertyValue)>, base_id: i32, default_id: Option<i32>) -> (r:
        ModernBlockData)
        ensures
            r@.kinds == kinds_view(kinds@),
            r@.base_id == base_id as int,
            r@.default_id == (match default_id {
                Some(id) => Some(id as int),
                None => None,
            }),
    {
        ModernBlockData { kinds, base_id, default_id }
    }

    /// The base id: the numeric id of the block's first declared state.
    pub fn base_id(&self) -> (r: i32)
        ensures
            r as int == self@.base_id,
    {
        self.base_id
    }

    /// The default id, present only when it differs from the base id.
    pub fn default_id(&self) -> (r: Option<i32>)
        ensures
            (match r {
                Some(id) => self@.default_id == Some(id as int),
                None => self@.default_id is None,
            }),
    {
        self.default_id
    }
}

/// The mathematical image of `ModernBlockList`.
pub struct ModernBlockListView {
    pub metadata: Option<MetaDataView>,
    pub properties: Seq<(Seq<char>, Seq<Seq<char>>)>,
    pub blocks: Seq<(IdentifierView, ModernBlockDataView)>,
}

/// The view of the global property table.
pub open spec fn table_view(props: Seq<(String, EnumProperty)>) -> Seq<
    (Seq<char>, Seq<Seq<char>>),
> {
    Seq::new(props.len(), |i: int| (props[i].0@, props[i].1@))
}

/// The view of the compact block table.
pub open spec fn blocks_view(blocks: Seq<(Identifier, ModernBlockData)>) -> Seq<
    (IdentifierView, ModernBlockDataView),
> {
    Seq::new(blocks.len(), |i: int| (blocks[i].0@, blocks[i].1@))
}

/// The whole compact representation: optional metadata, the global table of
/// enumerated properties, and the block records, all in input order.
#[derive(Debug)]
pub struct ModernBlockList {
    pub metadata: Option<MetaData>,
    pub properties: Vec<(String, EnumProperty)>,
    pub blocks: Vec<(Identifier, ModernBlockData)>,
}

impl View for ModernBlockList {
    type V = ModernBlockListView;

    open spec fn view(&self) -> ModernBlockListView {
        ModernBlockListView {
            metadata: match self.metadata {
                Some(m) => Some(m@),
                None => None,
            },
            properties: table_view(self.properties@),
            blocks: blocks_view(self.blocks@),
        }
    }
}

impl ModernBlockList {
    /// Bundles the compact representation.
    pub fn new(
        metadata: Option<MetaData>,
        properties: Vec<(String, EnumProperty)>,
        blocks: Vec<(Identifier, ModernBlockData)>,
    ) -> (r: ModernBlockList)
        ensures
            r@.metadata == (match metadata {
                Some(m) => Some(m@),
                None => None,
            }),
            r@.properties == table_view(properties@),
            r@.blocks == blocks_view(blocks@),
    {
        ModernBlockList { metadata, properties, blocks }
    }

    /// The first global-table entry under `name`, if any.
    pub fn find_property(&self, name: &String) -> (r: Option<&EnumProperty>)
        ensures
            r matches Some(p) ==> crate::table::has_key(self@.properties, name@) && p@
                == crate::table::value_of(self@.properties, name@),
            r is None ==> !crate::table::has_key(self@.properties, name@),
    {
        proof {
            crate::table::lemma_key_index(self@.properties, name@);
        }
        let n = self.properties.len();
        let mut i: usize = 0;
        while i < n
            invariant
                0 <= i <= n,
                n == self.properties.len(),
                n == self@.properties.len(),
                forall|j: int| 0 <= j < i ==> #[trigger] self@.properties[j].0 != name@,
            decreases n - i,
        {
            if self.properties[i].0.eq(name) {
                assert(self@.properties[i as int].0 == name@);
                proof {
                    crate::table::lemma_key_index(self@.properties, name@);
                    assert(crate::table::key_index(self@.properties, name@) == i as int);
                }
                return Some(&self.properties[i].1);
            }
            i = i + 1;
        }
        None
    }

    /// The first block record under `key`, if any.
    pub fn find_block(&self, key: &Identifier) -> (r: Option<&ModernBlockData>)
        ensures
            r matches Some(b) ==> crate::table::has_key(self@.blocks, key@) && b@
                == crate::table::value_of(self@.blocks, key@),
            r is None ==> !crate::table::has_key(self@.blocks, key@),
    {
        proof {
            crate::table::lemma_key_index(self@.blocks, key@);
        }
        let n = self.blocks.len();
        let mut i: usize = 0;
        while i < n
            invariant
                0 <= i <= n,
                n == self.blocks.len(),
                n == self@.blocks.len(),
                forall|j: int| 0 <= j < i ==> #[trigger] self@.blocks[j].0 != key@,
            decreases n - i,
        {
            if self.blocks[i].0.matches(key) {
                assert(self@.blocks[i as int].0 == key@);
                proof {
                    crate::table::lemma_key_index(self@.blocks, key@);
                    assert(crate::table::key_index(self@.blocks, key@) == i as int);
                }
                return Some(&self.blocks[i].1);
            }
            i = i + 1;
        }
        None
    }
}

} // verus!
