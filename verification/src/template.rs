//! Plain records a rendering layer fills in when it lists a page: the
//! child links and the action links shown beside it.  Rendering itself
//! (markup, templates) is an external collaborator; these are just the
//! data it is handed.

use vstd::prelude::*;

verus! {

/// A link to one child page.
pub struct Child {
    pub id: String,
    pub branch: String,
    pub ver_no: String,
    pub value: String,
}

/// The list of child links of a page.
pub struct Children {
    pub items: Vec<Child>,
}

/// One action offered on a page (edit, delete, permalink, ...).
pub struct Action {
    pub icon: String,
    pub link: String,
    pub value: String,
}

/// The list of actions offered on a page.
pub struct Actions {
    pub items: Vec<Action>,
}

} // verus!
