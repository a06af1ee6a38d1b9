//! The catalog entry type and its mathematical model.

use vstd::prelude::*;

verus! {

/// One catalog entry: a free-form content-type label, a title, a summary
/// and an opaque link.
#[derive(Debug)]
pub struct Item {
    pub content_type: String,
    pub title: String,
    pub summary: String,
    pub link: String,
}

/// Model of an `Item`: its four fields as character sequences.
pub struct ItemView {
    pub content_type: Seq<char>,
    pub title: Seq<char>,
    pub summary: Seq<char>,
    pub link: Seq<char>,
}

impl View for Item {
    type V = ItemView;

    open spec fn view(&self) -> ItemView {
        ItemView {
            content_type: self.content_type@,
            title: self.title@,
            summary: self.summary@,
            link: self.link@,
        }
    }
}

impl DeepView for Item {
    type V = ItemView;

    open spec fn deep_view(&self) -> ItemView {
        self.view()
    }
}

impl Clone for Item {
    /// A field-for-field copy of the entry.
    fn clone(&self) -> (r: Self)
        ensures
            r == *self,
    {
        Item {
            content_type: self.content_type.clone(),
            title: self.title.clone(),
            summary: self.summary.clone(),
            link: self.link.clone(),
        }
    }
}

impl PartialEq for Item {
    fn eq(&self, other: &Item) -> (r: bool) {
        self.content_type == other.content_type && self.title == other.title
            && self.summary == other.summary && self.link == other.link
    }
}

impl vstd::std_specs::cmp::PartialEqSpecImpl for Item {
    open spec fn obeys_eq_spec() -> bool {
        true
    }

    open spec fn eq_spec(&self, other: &Item) -> bool {
        self.content_type@ == other.content_type@ && self.title@ == other.title@
            && self.summary@ == other.summary@ && self.link@ == other.link@
    }
}

} // verus!
