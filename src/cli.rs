//! The commands of the item tool, as plain values; the argument parser fills them in.

use vstd::prelude::*;

verus! {

/// The item tool's options: the data file and the command.
pub struct Options {
    pub path: Option<String>,
    pub subcmd: Option<SubCmd>,
}

/// A command of the item tool.
pub enum SubCmd {
    List,
    Next,
    Add(ItemAddDetails),
    SelRefID(SelectionDetails),
}

/// A new item: its name, context, and whether it is a note.
pub struct ItemAddDetails {
    pub name: String,
    pub context: Option<String>,
    pub note: Option<bool>,
}

/// A selection of items by reference id and what to do with it.
pub struct SelectionDetails {
    pub range: String,
    pub action: Option<SelectionAction>,
}

/// What to do with the selected items.
pub enum SelectionAction {
    Modify(ItemBatchMod),
    AddChild(ItemAddDetails),
    Done,
    ListTree,
    ListBrief,
    ListShallow,
}

/// The changes that a batch edit makes to each selected item. An empty context clears it;
/// `note` turns tasks into notes (`true`) or notes into tasks (`false`).
pub struct ItemBatchMod {
    pub name: Option<String>,
    pub context: Option<String>,
    pub note: Option<bool>,
}

} // verus!
