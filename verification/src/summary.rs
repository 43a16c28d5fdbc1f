use vstd::prelude::*;

verus! {

use vstd::string::StringExecFns;

/// A short, human-readable digest of a value.
pub trait Summary: Sized {
    /// The text that `summarize` produces.
    spec fn summary(&self) -> Seq<char>;

    fn summarize(&self) -> (r: String)
        ensures
            r@ == self.summary(),
    ;
}

pub struct NewsArticle {
    pub headline: String,
    pub location: String,
    pub author: String,
    pub content: String,
}

impl Summary for NewsArticle {
    open spec fn summary(&self) -> Seq<char> {
        self.headline@ + ", by "@ + self.author@ + " ("@ + self.location@ + ")"@
    }

    fn summarize(&self) -> (r: String) {
        let mut r = self.headline.clone();
        r.append(", by ");
        r.append(self.author.as_str());
        r.append(" (");
        r.append(self.location.as_str());
        r.append(")");
        r
    }
}

pub struct Tweet {
    pub username: String,
    pub content: String,
    pub reply: bool,
    pub retweet: bool,
}

impl Summary for Tweet {
    open spec fn summary(&self) -> Seq<char> {
        self.username@ + ": "@ + self.content@
    }

    fn summarize(&self) -> (r: String) {
        let mut r = self.username.clone();
        r.append(": ");
        r.append(self.content.as_str());
        r
    }
}

pub fn some_func<T: Clone, U: Clone>(t: &T, u: &U) -> (r: i32)
    ensures
        r == 5,
{
    5
}

pub fn some_func_where<T, U>(t: &T, u: &U) -> (r: i32)
    where
        T: Clone,
        U: Clone,
    ensures
        r == 5,
{
    5
}

} // verus!
