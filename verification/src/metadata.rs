//! Optional version metadata carried at the head of a compact file.

use vstd::prelude::*;

verus! {

/// The mathematical image of `MetaData`.
pub struct MetaDataView {
    pub id: int,
    pub name: Option<Seq<char>>,
    pub note: Option<Seq<char>>,
}

/// Version metadata: a numeric data version, an optional display name, and an
/// optional free-form note.
#[derive(Debug)]
pub struct MetaData {
    pub id: i32,
    pub name: Option<String>,
    pub note: Option<String>,
}

impl View for MetaData {
    type V = MetaDataView;

    open spec fn view(&self) -> MetaDataView {
        MetaDataView { id: self.id as int, name: self.name.deep_view(), note: self.note.deep_view() }
    }
}

impl MetaData {
    /// Bundles the metadata fields.
    pub fn new(id: i32, name: Option<String>, note: Option<String>) -> (r: MetaData)
        ensures
            r@.id == id as int,
            r@.name == name.deep_view(),
            r@.note == note.deep_view(),
    {
        MetaData { id, name, note }
    }
}

} // verus!
