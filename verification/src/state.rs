//! The inspector's session state and the decisions taken on user actions:
//! opening and closing a document, searching, expanding JSON containers,
//! selecting rows or cells, and overriding header detection.

use vstd::prelude::*;
use crate::document::{DataDocument, with_header_row};
use crate::json::height;
use crate::table::{CsvSelection, column_title};
use crate::text::{owned, str_eq, trim, unicode_lowercase};
use crate::json::JsonValue;
use crate::pointer::resolve;
use crate::tree::{
    VisibleNode, collect_visible_nodes, copied_text, copyable_value, json_pretty, node_info,
    node_view, pretty_json, visible_from,
};

verus! {

/// What is selected: a JSON row or a table cell.
#[derive(Debug)]
pub enum DataSelection {
    Json(VisibleNode),
    Csv(CsvSelection),
}

/// A copy of a row.
pub fn copy_node(node: &VisibleNode) -> (r: VisibleNode)
    ensures
        r.model() == node.model(),
{
    VisibleNode {
        label: owned(node.label.as_str()),
        display_path: owned(node.display_path.as_str()),
        pointer: owned(node.pointer.as_str()),
        node_type: owned(node.node_type.as_str()),
        summary: owned(node.summary.as_str()),
        child_count: node.child_count,
        depth: node.depth,
        is_container: node.is_container,
    }
}

/// The session: the open document, the pointers of expanded JSON
/// containers, the rows currently listed, the selection and the
/// (normalised) search query.
#[derive(Debug)]
pub struct AppState {
    pub document: Option<DataDocument>,
    pub expanded: Vec<String>,
    pub visible_nodes: Vec<VisibleNode>,
    pub selected: Option<DataSelection>,
    pub query: String,
}

/// Whether no pointer is listed twice.
pub open spec fn no_repeats(s: Seq<Seq<char>>) -> bool {
    forall|i: int, j: int| 0 <= i < j < s.len() ==> s[i] != s[j]
}

/// The test for a pointer other than `pointer`.
pub open spec fn other_than(pointer: Seq<char>) -> spec_fn(Seq<char>) -> bool {
    |x: Seq<char>| x != pointer
}

/// The expanded pointers after toggling `pointer`: removed when present,
/// added otherwise.
pub open spec fn toggled(s: Seq<Seq<char>>, pointer: Seq<char>) -> Seq<Seq<char>> {
    if s.contains(pointer) {
        s.filter(other_than(pointer))
    } else {
        s.push(pointer)
    }
}

/// The JSON value at the selected row: `None` unless a JSON document is
/// open, a row of it is selected and the row's pointer addresses a value.
pub open spec fn selected_json_value(
    document: Option<DataDocument>,
    selected: Option<DataSelection>,
) -> Option<JsonValue> {
    match (document, selected) {
        (Some(DataDocument::Json(d)), Some(DataSelection::Json(n))) => resolve(d.value, n.pointer@),
        _ => None,
    }
}

impl AppState {
    /// The state with nothing open.
    pub fn new() -> (r: AppState)
        ensures
            r.document is None,
            r.expanded@.len() == 0,
            r.visible_nodes@.len() == 0,
            r.selected is None,
            r.query@.len() == 0,
    {
        AppState {
            document: None,
            expanded: Vec::new(),
            visible_nodes: Vec::new(),
            selected: None,
            query: String::new(),
        }
    }

    /// The pointers of the expanded containers.
    pub open spec fn expanded_pointers(&self) -> Seq<Seq<char>> {
        self.expanded.deep_view()
    }

    /// Opens a document: the JSON root is expanded and selected, the search
    /// is cleared, and tables start without a selection.
    pub fn open_document(&mut self, document: DataDocument)
        ensures
            final(self).document == Some(document),
            final(self).expanded_pointers() == seq![Seq::<char>::empty()],
            final(self).query@.len() == 0,
            final(self).visible_nodes@.len() == 0,
            match document {
                DataDocument::Json(d) => (final(self).selected matches Some(DataSelection::Json(n))
                    && n.model() == node_view("Root"@, "$"@, ""@, d.value, 0)),
                DataDocument::Csv(_) => final(self).selected is None,
            },
    {
        let selected = match &document {
            DataDocument::Json(d) => Some(
                DataSelection::Json(node_info("Root", "$", "", &d.value, 0)),
            ),
            DataDocument::Csv(_) => None,
        };
        let mut expanded: Vec<String> = Vec::new();
        expanded.push(String::new());
        assert(expanded.deep_view() =~= seq![Seq::<char>::empty()]);
        self.document = Some(document);
        self.expanded = expanded;
        self.visible_nodes = Vec::new();
        self.selected = selected;
        self.query = String::new();
    }

    /// Takes the outcome of opening a file: a loaded document replaces the
    /// open one (as `open_document` does); a failure leaves everything as it
    /// was and hands back the message to show.
    pub fn apply_load(&mut self, loaded: Result<DataDocument, String>) -> (r: Option<String>)
        ensures
            match loaded {
                Ok(document) => {
                    &&& r is None
                    &&& final(self).document == Some(document)
                    &&& final(self).expanded_pointers() == seq![Seq::<char>::empty()]
                    &&& final(self).query@.len() == 0
                    &&& final(self).visible_nodes@.len() == 0
                    &&& match document {
                        DataDocument::Json(d) => (final(self).selected matches Some(
                            DataSelection::Json(n),
                        ) && n.model() == node_view("Root"@, "$"@, ""@, d.value, 0)),
                        DataDocument::Csv(_) => final(self).selected is None,
                    }
                },
                Err(message) => r == Some(message) && *final(self) == *old(self),
            },
    {
        match loaded {
            Ok(document) => {
                self.open_document(document);
                None
            },
            Err(message) => Some(message),
        }
    }

    /// Closes the document, returning to the empty state.
    pub fn close(&mut self)
        ensures
            final(self).document is None,
            final(self).expanded@.len() == 0,
            final(self).visible_nodes@.len() == 0,
            final(self).selected is None,
            final(self).query@.len() == 0,
    {
        *self = AppState::new();
    }

    /// Sets the search from the text typed: trimmed and lower-cased.
    pub fn set_search(&mut self, text: &str)
        ensures
            final(self).query@ == unicode_lowercase(trim(text@)),
            final(self).document == old(self).document,
            final(self).expanded == old(self).expanded,
            final(self).selected == old(self).selected,
    {
        self.query = crate::table::normalize_query(text);
    }

    /// Expands a collapsed container or collapses an expanded one.
    pub fn toggle_expanded(&mut self, pointer: &str)
        ensures
            final(self).expanded_pointers() == toggled(old(self).expanded_pointers(), pointer@),
            final(self).document == old(self).document,
            final(self).visible_nodes == old(self).visible_nodes,
            final(self).selected == old(self).selected,
            final(self).query == old(self).query,
    {
        let ghost before = self.expanded.deep_view();
        let mut kept: Vec<String> = Vec::new();
        let mut found = false;
        let mut i: usize = 0;
        while i < self.expanded.len()
            invariant
                before == self.expanded.deep_view(),
                i <= self.expanded.len(),
                kept.deep_view() == before.take(i as int).filter(other_than(pointer@)),
                found == before.take(i as int).contains(pointer@),
            decreases self.expanded.len() - i,
        {
            assert(before[i as int] == self.expanded@[i as int]@);
            assert(before.take(i + 1).drop_last() =~= before.take(i as int));
            proof {
                assert(before.take(i + 1) =~= before.take(i as int).push(before[i as int]));
                before.take(i as int).lemma_filter_push(before[i as int], other_than(pointer@));
            }
            let same = str_eq(self.expanded[i].as_str(), pointer);
            if same {
                found = true;
                assert(before.take(i + 1).contains(pointer@)) by {
                    assert(before.take(i + 1)[i as int] == pointer@);
                }
            } else {
                let ghost k = kept.deep_view();
                kept.push(owned(self.expanded[i].as_str()));
                assert(kept.deep_view() =~= k.push(before[i as int]));
            }
            i = i + 1;
        }
        assert(before.take(before.len() as int) =~= before);
        if found {
            self.expanded = kept;
        } else {
            let ghost k = self.expanded.deep_view();
            self.expanded.push(owned(pointer));
            assert(self.expanded.deep_view() =~= k.push(pointer@));
        }
    }

    /// Relists the rows of the JSON tree for the expanded containers and the
    /// search; lists nothing for a table or with nothing open.
    pub fn refresh_visible_nodes(&mut self)
        requires
            old(self).document matches Some(DataDocument::Json(d)) ==> height(d.value)
                <= usize::MAX,
        ensures
            final(self).document == old(self).document,
            final(self).expanded == old(self).expanded,
            final(self).query == old(self).query,
            final(self).selected == old(self).selected,
            match old(self).document {
                Some(DataDocument::Json(d)) => crate::tree::models(final(self).visible_nodes@)
                    == visible_from(
                    d.value,
                    "Root"@,
                    "$"@,
                    ""@,
                    0,
                    old(self).expanded.deep_view(),
                    old(self).query@,
                ),
                _ => final(self).visible_nodes@.len() == 0,
            },
    {
        let nodes = match &self.document {
            Some(DataDocument::Json(d)) => collect_visible_nodes(
                &d.value,
                self.expanded.as_slice(),
                self.query.as_str(),
            ),
            _ => Vec::new(),
        };
        self.visible_nodes = nodes;
    }

    /// Selects the listed JSON row at `index`; returns whether there was one.
    pub fn select_row(&mut self, index: usize) -> (r: bool)
        ensures
            r == (index < old(self).visible_nodes@.len()),
            r ==> (final(self).selected matches Some(DataSelection::Json(n)) && n.model()
                == old(self).visible_nodes@[index as int].model()),
            !r ==> final(self).selected == old(self).selected,
            final(self).document == old(self).document,
            final(self).visible_nodes == old(self).visible_nodes,
    {
        if index >= self.visible_nodes.len() {
            return false;
        }
        let node = copy_node(&self.visible_nodes[index]);
        self.selected = Some(DataSelection::Json(node));
        true
    }

    /// Selects the table cell at `row_index`, `column_index`; returns whether
    /// a table with such a cell is open.
    pub fn select_cell(&mut self, row_index: usize, column_index: usize) -> (r: bool)
        ensures
            r == (old(self).document matches Some(DataDocument::Csv(d)) && (row_index
                < d.rows@.len() && column_index < d.rows@[row_index as int]@.len())),
            r ==> (final(self).selected matches Some(DataSelection::Csv(s)) && (s.row_index
                == row_index && s.column_index == column_index && (old(self).document matches Some(
                DataDocument::Csv(d),
            ) && (s.value@ == d.rows.deep_view()[row_index as int][column_index as int]
                && s.column_name@ == column_title(d.headers.deep_view(), column_index as nat))))),
            !r ==> final(self).selected == old(self).selected,
            final(self).document == old(self).document,
    {
        let selection = match &self.document {
            Some(DataDocument::Csv(d)) => crate::table::csv_selection(d, row_index, column_index),
            _ => None,
        };
        match selection {
            Some(s) => {
                self.selected = Some(DataSelection::Csv(s));
                true
            },
            None => false,
        }
    }

    /// The text that "Copy Value" puts on the clipboard: the selected cell's
    /// value, or the selected JSON value as `copyable_value` gives it;
    /// `None` when there is nothing to copy.
    pub fn selected_value_text(&self) -> (r: Option<String>)
        ensures
            match (self.document, self.selected) {
                (Some(DataDocument::Csv(_)), Some(DataSelection::Csv(s))) => r matches Some(t)
                    && t@ == s.value@,
                _ => match selected_json_value(self.document, self.selected) {
                    Some(v) => r matches Some(t) && t@ == copied_text(v),
                    None => r is None,
                },
            },
    {
        match &self.document {
            Some(DataDocument::Json(d)) => match &self.selected {
                Some(DataSelection::Json(n)) => match d.value.pointer(n.pointer.as_str()) {
                    Some(v) => Some(copyable_value(v)),
                    None => None,
                },
                _ => None,
            },
            Some(DataDocument::Csv(_)) => match &self.selected {
                Some(DataSelection::Csv(s)) => Some(owned(s.value.as_str())),
                _ => None,
            },
            None => None,
        }
    }

    /// The text that "Copy Item" puts on the clipboard: the selected JSON
    /// value with all its descendants, pretty-printed; `None` when no JSON
    /// row is selected or its pointer addresses nothing.
    pub fn selected_item_text(&self) -> (r: Option<String>)
        ensures
            match selected_json_value(self.document, self.selected) {
                Some(v) => r matches Some(t) && t@ == json_pretty(v),
                None => r is None,
            },
    {
        match &self.document {
            Some(DataDocument::Json(d)) => match &self.selected {
                Some(DataSelection::Json(n)) => match d.value.pointer(n.pointer.as_str()) {
                    Some(v) => Some(pretty_json(v)),
                    None => None,
                },
                _ => None,
            },
            _ => None,
        }
    }

    /// Applies the "First row is header" switch to an open table. Returns
    /// whether the table changed, in which case the selection is cleared.
    pub fn set_header_override(&mut self, active: bool) -> (r: bool)
        ensures
            r == (old(self).document matches Some(DataDocument::Csv(d)) && (d.has_headers
                != active)),
            match (old(self).document, final(self).document) {
                (Some(DataDocument::Csv(a)), Some(DataDocument::Csv(b))) => {
                    &&& b.layout() == with_header_row(a.layout(), active)
                    &&& b.path == a.path
                    &&& b.raw_text == a.raw_text
                    &&& b.size_bytes == a.size_bytes
                    &&& b.delimiter == a.delimiter
                },
                (a, b) => a == b,
            },
            final(self).expanded == old(self).expanded,
            final(self).visible_nodes == old(self).visible_nodes,
            final(self).query == old(self).query,
            r ==> final(self).selected is None,
            !r ==> final(self).selected == old(self).selected && final(self).document == old(
                self,
            ).document,
    {
        match &mut self.document {
            Some(DataDocument::Csv(document)) => {
                if document.has_headers == active {
                    return false;
                }
                document.set_has_headers(active);
            },
            _ => {
                return false;
            },
        }
        self.selected = None;
        true
    }
}

/// Toggling the same container twice restores the expanded set when no
/// pointer was listed twice.
pub proof fn law_toggle_twice_restores(s: Seq<Seq<char>>, pointer: Seq<char>)
    requires
        no_repeats(s),
        !s.contains(pointer),
    ensures
        toggled(toggled(s, pointer), pointer) == s,
{
    let t = s.push(pointer);
    assert(t.contains(pointer)) by {
        assert(t[s.len() as int] == pointer);
    }
    s.lemma_filter_push(pointer, other_than(pointer));
    lemma_filter_keeps_all(s, pointer);
}

proof fn lemma_filter_keeps_all(s: Seq<Seq<char>>, pointer: Seq<char>)
    requires
        !s.contains(pointer),
    ensures
        s.filter(other_than(pointer)) == s,
    decreases s.len(),
{
    if s.len() > 0 {
        let d = s.drop_last();
        assert(!d.contains(pointer)) by {
            if d.contains(pointer) {
                let j = choose|j: int| 0 <= j < d.len() && d[j] == pointer;
                assert(s[j] == pointer);
            }
        }
        lemma_filter_keeps_all(d, pointer);
        assert(s =~= d.push(s.last()));
        assert(s.last() != pointer) by {
            assert(s[s.len() - 1] == s.last());
        }
        d.lemma_filter_push(s.last(), other_than(pointer));
    }
}

} // verus!
