use vstd::prelude::*;

verus! {

use vstd::string::StringExecFns;
use crate::frame::dec_chars;
use crate::frame::u64_to_string;

/// The decimal text of a possibly negative value.
pub open spec fn dec_chars_i32(v: int) -> Seq<char> {
    if v < 0 {
        seq!['-'] + dec_chars((-v) as nat)
    } else {
        dec_chars(v as nat)
    }
}

/// Render `v` in decimal, with a leading minus when negative.
fn i32_to_string(v: i32) -> (s: String)
    ensures
        s@ == dec_chars_i32(v as int),
{
    if v < 0 {
        let m = (-(v as i64)) as u64;
        let mut s = String::from_str("-");
        proof {
            reveal_strlit("-");
            assert("-"@ =~= seq!['-']);
        }
        let d = u64_to_string(m);
        s.append(d.as_str());
        s
    } else {
        u64_to_string(v as u64)
    }
}

/// A drawable shape: `draw` yields the text that describes it, and
/// `modify` resizes it.
pub trait Component: Sized {
    /// The shape's one size parameter.
    spec fn size(&self) -> int;

    /// The text that `draw` produces.
    spec fn rendered(&self) -> Seq<char>;

    fn draw(&self) -> (r: String)
        ensures
            r@ == self.rendered(),
    ;

    fn modify(&mut self, val: i32)
        ensures
            final(self).size() == val as int,
    ;
}

pub struct Square {
    edge: i32,
}

impl Square {
    pub fn new(edge: i32) -> (r: Square)
        ensures
            r.size() == edge as int,
    {
        Square { edge }
    }
}

pub struct Circle {
    radius: i32,
}

impl Circle {
    pub fn new(radius: i32) -> (r: Circle)
        ensures
            r.size() == radius as int,
    {
        Circle { radius }
    }
}

impl Component for Square {
    closed spec fn size(&self) -> int {
        self.edge as int
    }

    closed spec fn rendered(&self) -> Seq<char> {
        "Draw a square with edge "@ + dec_chars_i32(self.edge as int)
    }

    fn draw(&self) -> (r: String) {
        let mut r = String::from_str("Draw a square with edge ");
        let d = i32_to_string(self.edge);
        r.append(d.as_str());
        r
    }

    fn modify(&mut self, val: i32) {
        self.edge = val;
    }
}

impl Component for Circle {
    closed spec fn size(&self) -> int {
        self.radius as int
    }

    closed spec fn rendered(&self) -> Seq<char> {
        "Draw a circle with radius "@ + dec_chars_i32(self.radius as int)
    }

    fn draw(&self) -> (r: String) {
        let mut r = String::from_str("Draw a circle with radius ");
        let d = i32_to_string(self.radius);
        r.append(d.as_str());
        r
    }

    fn modify(&mut self, val: i32) {
        self.radius = val;
    }
}

} // verus!
