use vstd::prelude::*;

verus! {

/// How a headword was recognized.
#[derive(Debug, Clone, Copy, PartialEq, Eq, Structural)]
pub enum Kind {
    Word,
    Phrase,
}

/// A headword with its translation fragments, in the order they were read.
#[derive(Debug, Clone)]
pub struct Entry {
    pub name: String,
    pub trans: Vec<String>,
    pub kind: Kind,
}

/// The entries of a document, in page order.
#[derive(Debug, Clone)]
pub struct Dict(pub Vec<Entry>);

/// What an entry holds, as character sequences.
pub struct EntryView {
    pub name: Seq<char>,
    pub trans: Seq<Seq<char>>,
    pub kind: Kind,
}

impl View for Entry {
    type V = EntryView;

    open spec fn view(&self) -> EntryView {
        EntryView {
            name: self.name@,
            trans: self.trans@.map_values(|t: String| t@),
            kind: self.kind,
        }
    }
}

/// The views of a list of entries.
pub open spec fn entries_view(s: Seq<Entry>) -> Seq<EntryView> {
    s.map_values(|e: Entry| e@)
}

impl View for Dict {
    type V = Seq<EntryView>;

    open spec fn view(&self) -> Seq<EntryView> {
        entries_view(self.0@)
    }
}

} // verus!
