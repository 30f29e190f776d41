//! A model of a directory tree: named entries, where a directory holds a
//! listing of child entries, or no listing where enumeration failed.

use vstd::prelude::*;

verus! {

/// One filesystem entry: a name together with what kind of node it is.
pub struct Entry {
    pub name: String,
    pub node: Node,
}

/// The kind of a filesystem entry. A directory's listing is `None` where the
/// directory could not be enumerated (for example, permission was denied).
pub enum Node {
    File,
    Dir { entries: Option<Vec<Entry>> },
}

impl Entry {
    /// Whether this entry is a directory.
    pub open spec fn is_dir(self) -> bool {
        self.node is Dir
    }

    /// Whether this entry is a directory whose listing could be enumerated.
    pub open spec fn is_readable_dir(self) -> bool {
        self.node matches Node::Dir { entries: Some(_) }
    }

    /// The child entries of a directory, empty where enumeration failed.
    pub open spec fn children(self) -> Seq<Entry> {
        match self.node {
            Node::File => Seq::empty(),
            Node::Dir { entries } => match entries {
                Option::None => Seq::empty(),
                Option::Some(cs) => cs@,
            },
        }
    }
}

/// The fixed marker name that identifies a repository root: a directory is a
/// repository exactly when it directly contains a sub-directory of this name.
pub open spec fn marker_name() -> Seq<char> {
    ".git"@
}

/// Whether one child entry is the repository marker: a sub-directory whose
/// name is the marker name. A plain file of that name does not qualify.
pub open spec fn is_marker_dir(c: Entry) -> bool {
    c.node is Dir && c.name@ == marker_name()
}

/// Whether an entry is a repository root: a directory whose listing could be
/// enumerated and that directly contains a sub-directory named by the marker.
pub open spec fn is_repo(e: Entry) -> bool {
    &&& e.is_readable_dir()
    &&& exists|i: int| 0 <= i < e.children().len() && is_marker_dir(e.children()[i])
}

} // verus!
