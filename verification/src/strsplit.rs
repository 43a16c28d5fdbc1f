use vstd::prelude::*;

verus! {

use vstd::string::StrSliceExecFns;

/// The delimiter `d` occurs in `s` at char position `i`.
pub open spec fn match_at(s: Seq<char>, d: Seq<char>, i: int) -> bool {
    0 <= i && i + d.len() <= s.len() && s.subrange(i, i + d.len()) == d
}

/// No occurrence of `d` in `s` starts before position `i`.
pub open spec fn no_match_before(s: Seq<char>, d: Seq<char>, i: int) -> bool {
    forall|j: int| 0 <= j < i ==> !(#[trigger] match_at(s, d, j))
}

/// No occurrence of `d` in `s` at all.
pub open spec fn no_match(s: Seq<char>, d: Seq<char>) -> bool {
    forall|j: int| !(#[trigger] match_at(s, d, j))
}

/// Splits a haystack at every occurrence of a delimiter, handing the
/// pieces out one at a time.  A trailing delimiter yields one final
/// empty piece.
pub struct StrSplit<'a, 'b> {
    remainder: &'a str,
    delimiter: &'b str,
    empty_tail: bool,
}

/// Scan `s` for the first occurrence of `d`, by char positions.
fn find_sub(s: &str, d: &str) -> (r: Option<usize>)
    ensures
        match r {
            Some(i) => match_at(s@, d@, i as int) && no_match_before(s@, d@, i as int),
            None => no_match(s@, d@),
        },
{
    let sl = s.unicode_len();
    let dl = d.unicode_len();
    if dl > sl {
        assert forall|j: int| !match_at(s@, d@, j) by {}
        return None;
    }
    let mut i: usize = 0;
    while i <= sl - dl
        invariant
            dl <= sl,
            sl == s@.len(),
            dl == d@.len(),
            i <= sl - dl + 1,
            no_match_before(s@, d@, i as int),
        decreases sl - dl - i + 1,
    {
        let mut j: usize = 0;
        let mut hit = true;
        while hit && j < dl
            invariant
                dl <= sl,
                sl == s@.len(),
                dl == d@.len(),
                i + dl <= sl,
                j <= dl,
                hit ==> forall|t: int| 0 <= t < j ==> s@[i + t] == #[trigger] d@[t],
                !hit ==> exists|t: int| 0 <= t < dl && s@[i + t] != #[trigger] d@[t],
            decreases dl - j + (if hit { 1int } else { 0int }),
        {
            if s.get_char(i + j) != d.get_char(j) {
                hit = false;
            } else {
                j += 1;
            }
        }
        if hit {
            assert(s@.subrange(i as int, i + d@.len()) =~= d@);
            return Some(i);
        }
        assert(!match_at(s@, d@, i as int)) by {
            if match_at(s@, d@, i as int) {
                assert forall|t: int| 0 <= t < dl implies s@[i + t] == #[trigger] d@[t] by {
                    assert(s@.subrange(i as int, i + d@.len())[t] == s@[i + t]);
                }
            }
        }
        i += 1;
    }
    assert forall|j: int| !match_at(s@, d@, j) by {}
    None
}

impl<'a, 'b> StrSplit<'a, 'b> {
    /// The part of the haystack not yet handed out.
    pub closed spec fn rem(&self) -> Seq<char> {
        self.remainder@
    }

    /// The delimiter.
    pub closed spec fn delim(&self) -> Seq<char> {
        self.delimiter@
    }

    /// Whether one final empty piece is still owed after a trailing delimiter.
    pub closed spec fn owes_empty(&self) -> bool {
        self.empty_tail
    }

    pub fn new(haystack: &'a str, delimiter: &'b str) -> (r: Self)
        ensures
            r.rem() == haystack@,
            r.delim() == delimiter@,
            !r.owes_empty(),
    {
        Self { remainder: haystack, delimiter, empty_tail: false }
    }

    /// The next piece: the text up to the first delimiter, the rest after
    /// the last delimiter, or one empty piece after a trailing delimiter.
    pub fn next(&mut self) -> (r: Option<&'a str>)
        ensures
            final(self).delim() == old(self).delim(),
            forall|i: int|
                match_at(old(self).rem(), old(self).delim(), i)
                    && no_match_before(old(self).rem(), old(self).delim(), i)
                    ==> match r {
                    Some(t) => {
                        &&& t@ == old(self).rem().subrange(0, i)
                        &&& final(self).rem() == old(self).rem().subrange(
                            i + old(self).delim().len() as int,
                            old(self).rem().len() as int,
                        )
                        &&& final(self).owes_empty() == (final(self).rem().len() == 0
                            || old(self).owes_empty())
                    },
                    None => false,
                },
            no_match(old(self).rem(), old(self).delim()) && old(self).rem().len() > 0
                ==> match r {
                Some(t) => {
                    &&& t@ == old(self).rem()
                    &&& final(self).rem().len() == 0
                    &&& final(self).owes_empty() == old(self).owes_empty()
                },
                None => false,
            },
            no_match(old(self).rem(), old(self).delim()) && old(self).rem().len() == 0
                && old(self).owes_empty() ==> match r {
                Some(t) => t@.len() == 0 && final(self).rem().len() == 0
                    && !final(self).owes_empty(),
                None => false,
            },
            no_match(old(self).rem(), old(self).delim()) && old(self).rem().len() == 0
                && !old(self).owes_empty() ==> r is None && *final(self) == *old(self),
    {
        proof {
            reveal_strlit("");
        }
        match find_sub(self.remainder, self.delimiter) {
            Some(i) => {
                let dl = self.delimiter.unicode_len();
                let rl = self.remainder.unicode_len();
                let until_delimiter = self.remainder.substring_char(0, i);
                self.remainder = self.remainder.substring_char(i + dl, rl);
                if self.remainder.is_empty() {
                    self.empty_tail = true;
                }
                Some(until_delimiter)
            },
            None => {
                if self.remainder.is_empty() {
                    if self.empty_tail {
                        self.empty_tail = false;
                        Some("")
                    } else {
                        None
                    }
                } else {
                    let rest = self.remainder;
                    self.remainder = "";
                    Some(rest)
                }
            },
        }
    }
}

/// The text before the first occurrence of `c`, or all of `s` when `c`
/// does not occur.
pub fn until_char<'s>(s: &'s str, c: char) -> (r: &'s str)
    ensures
        forall|i: int|
            0 <= i < s@.len() && #[trigger] s@[i] == c && (forall|j: int|
                0 <= j < i ==> #[trigger] s@[j] != c) ==> r@ == s@.subrange(0, i),
        (forall|i: int| 0 <= i < s@.len() ==> #[trigger] s@[i] != c) ==> r@ == s@,
{
    let sl = s.unicode_len();
    let mut i: usize = 0;
    while i < sl
        invariant
            sl == s@.len(),
            i <= sl,
            forall|j: int| 0 <= j < i ==> #[trigger] s@[j] != c,
        decreases sl - i,
    {
        if s.get_char(i) == c {
            return s.substring_char(0, i);
        }
        i += 1;
    }
    s
}

} // verus!
