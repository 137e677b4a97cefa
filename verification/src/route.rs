//! A request path split into its non-empty segments.

use vstd::prelude::*;
use vstd::string::StringExecFns;
use crate::strutil::{join, join_spec, split_drop_empty, split_ne, views_of};

verus! {

/// A path such as `/edit/master/abc`, held as its segments.
pub struct Route(Vec<String>);

impl View for Route {
    type V = Seq<Seq<char>>;

    closed spec fn view(&self) -> Seq<Seq<char>> {
        views_of(self.0@)
    }
}

impl Route {
    /// Split a path at every slash, dropping empty segments.
    pub fn new(string: &str) -> (r: Route)
        ensures
            r@ == split_ne(string@, '/'),
    {
        Route(split_drop_empty(string, '/'))
    }

    /// Wrap ready-made segments.
    pub fn over(slice: Vec<String>) -> (r: Route)
        ensures
            r@ == views_of(slice@),
    {
        Route(slice)
    }

    /// Borrow the segments.
    pub fn iter(&self) -> (r: &Vec<String>)
        ensures
            views_of(r@) == self@,
    {
        &self.0
    }

    /// The segments, owned.
    pub fn to_vec(self) -> (r: Vec<String>)
        ensures
            views_of(r@) == self@,
    {
        self.0
    }

    /// The path as text: a leading slash, segments joined by slashes.
    pub fn to_string(self) -> (r: String)
        ensures
            r@ == seq!['/'] + join_spec(self@, seq!['/']),
    {
        let joined = join(&self.0, "/");
        let mut out = "/".to_owned();
        out.append(joined.as_str());
        proof {
            reveal_strlit("/");
            assert("/"@ =~= seq!['/']);
        }
        out
    }
}

} // verus!
