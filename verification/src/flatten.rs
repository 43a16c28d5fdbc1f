use vstd::prelude::*;

verus! {

/// The concatenation of a sequence of sequences, front to back.
pub open spec fn flat<T>(ss: Seq<Seq<T>>) -> Seq<T>
    decreases ss.len(),
{
    if ss.len() == 0 {
        Seq::empty()
    } else {
        ss.first() + flat(ss.drop_first())
    }
}

/// The elements of a two-level vector, flattened.
pub open spec fn flat_of<T>(vs: Seq<Vec<T>>) -> Seq<T> {
    flat(vs.map_values(|v: Vec<T>| v@))
}

proof fn lemma_flat_skip<T>(ss: Seq<Seq<T>>, i: int)
    requires
        0 <= i < ss.len(),
    ensures
        flat(ss.skip(i)) == ss[i] + flat(ss.skip(i + 1)),
{
    assert(ss.skip(i).first() == ss[i]);
    assert(ss.skip(i).drop_first() =~= ss.skip(i + 1));
}

proof fn lemma_flat_last<T>(ss: Seq<Seq<T>>)
    requires
        ss.len() > 0,
    ensures
        flat(ss) == flat(ss.drop_last()) + ss.last(),
    decreases ss.len(),
{
    if ss.len() == 1 {
        assert(flat(ss.drop_first()) =~= Seq::<T>::empty());
        assert(flat(ss.drop_last()) =~= Seq::<T>::empty());
        assert(flat(ss) =~= ss[0]);
        assert(flat(ss.drop_last()) + ss.last() =~= ss[0]);
    } else {
        lemma_flat_last(ss.drop_first());
        assert(ss.drop_first().drop_last() =~= ss.drop_last().drop_first());
        assert(ss.drop_last().first() == ss.first());
        assert(ss.first() + (flat(ss.drop_last().drop_first()) + ss.last()) =~= (ss.first()
            + flat(ss.drop_last().drop_first())) + ss.last());
    }
}

proof fn lemma_reverse_concat<T>(a: Seq<T>, b: Seq<T>)
    ensures
        (a + b).reverse() == b.reverse() + a.reverse(),
{
    assert((a + b).reverse() =~= b.reverse() + a.reverse());
}

/// A flattened two-level collection: hands the inner elements out one
/// at a time, from either end.
pub struct Flatten<T> {
    outer: Vec<Vec<T>>,
}

impl<T> Flatten<T> {
    /// All elements not yet handed out, front to back.
    pub closed spec fn items(&self) -> Seq<T> {
        flat_of(self.outer@)
    }

    pub fn new(iter: Vec<Vec<T>>) -> (r: Self)
        ensures
            r.items() == flat_of(iter@),
    {
        Flatten { outer: iter }
    }

    /// The front element, removed from the collection.
    pub fn next(&mut self) -> (r: Option<T>)
        ensures
            old(self).items().len() == 0 ==> r is None && final(self).items() == old(
                self,
            ).items(),
            old(self).items().len() > 0 ==> match r {
                Some(x) => x == old(self).items().first() && final(self).items() == old(
                    self,
                ).items().drop_first(),
                None => false,
            },
    {
        while self.outer.len() > 0 && self.outer[0].len() == 0
            invariant
                flat_of(self.outer@) == old(self).items(),
            decreases self.outer.len(),
        {
            let ghost pre = self.outer@;
            self.outer.remove(0);
            proof {
                assert(pre.map_values(|v: Vec<T>| v@).drop_first() =~= self.outer@.map_values(
                    |v: Vec<T>| v@,
                ));
                assert(pre.map_values(|v: Vec<T>| v@).first() + flat_of(self.outer@) =~= flat_of(
                    self.outer@,
                ));
            }
        }
        if self.outer.len() == 0 {
            assert(self.items().len() == 0);
            None
        } else {
            let ghost pre = self.outer@;
            let mut first = self.outer.remove(0);
            let x = first.remove(0);
            self.outer.insert(0, first);
            proof {
                let m = pre.map_values(|v: Vec<T>| v@);
                assert(m.first().len() > 0);
                assert(flat(m).len() > 0);
                let ins = self.outer@.map_values(|v: Vec<T>| v@);
                assert(ins =~= m.drop_first().insert(0, m.first().drop_first()));
                assert(ins.first() == m.first().drop_first());
                assert(ins.drop_first() =~= m.drop_first());
                assert(flat(ins) == m.first().drop_first() + flat(m.drop_first()));
                assert(m.first().drop_first() + flat(m.drop_first()) =~= (m.first() + flat(
                    m.drop_first(),
                )).drop_first());
            }
            Some(x)
        }
    }

    /// The back element, removed from the collection.
    pub fn next_back(&mut self) -> (r: Option<T>)
        ensures
            old(self).items().len() == 0 ==> r is None && final(self).items() == old(
                self,
            ).items(),
            old(self).items().len() > 0 ==> match r {
                Some(x) => x == old(self).items().last() && final(self).items() == old(
                    self,
                ).items().drop_last(),
                None => false,
            },
    {
        while self.outer.len() > 0 && self.outer[self.outer.len() - 1].len() == 0
            invariant
                flat_of(self.outer@) == old(self).items(),
            decreases self.outer.len(),
        {
            let ghost pre = self.outer@;
            self.outer.pop();
            proof {
                let m = pre.map_values(|v: Vec<T>| v@);
                lemma_flat_last(m);
                assert(m.drop_last() =~= self.outer@.map_values(|v: Vec<T>| v@));
                assert(flat(m.drop_last()) + m.last() =~= flat(m.drop_last()));
            }
        }
        if self.outer.len() == 0 {
            assert(self.items().len() == 0);
            None
        } else {
            let ghost pre = self.outer@;
            let mut last = match self.outer.pop() {
                Some(v) => v,
                None => {
                    proof {
                        assert(false);
                    }
                    Vec::new()
                },
            };
            let x = match last.pop() {
                Some(x) => x,
                None => {
                    proof {
                        assert(false);
                    }
                    return None;
                },
            };
            self.outer.push(last);
            proof {
                let m = pre.map_values(|v: Vec<T>| v@);
                lemma_flat_last(m);
                assert(m.last().len() > 0);
                assert(flat(m).len() > 0);
                let m2 = self.outer@.map_values(|v: Vec<T>| v@);
                lemma_flat_last(m2);
                assert(m2.drop_last() =~= m.drop_last());
                assert(m2.last() == m.last().drop_last());
                assert(flat(m.drop_last()) + m.last().drop_last() =~= (flat(m.drop_last())
                    + m.last()).drop_last());
            }
            Some(x)
        }
    }

    /// How many elements are left; consumes the collection.
    pub fn count(self) -> (r: usize)
        requires
            self.items().len() <= usize::MAX,
        ensures
            r == self.items().len(),
    {
        let mut c: usize = 0;
        let mut i: usize = 0;
        proof {
            assert(self.outer@.map_values(|v: Vec<T>| v@).skip(0) =~= self.outer@.map_values(
                |v: Vec<T>| v@,
            ));
        }
        while i < self.outer.len()
            invariant
                i <= self.outer.len(),
                self.items().len() <= usize::MAX,
                c + flat(self.outer@.map_values(|v: Vec<T>| v@).skip(i as int)).len()
                    == self.items().len(),
            decreases self.outer.len() - i,
        {
            proof {
                lemma_flat_skip(self.outer@.map_values(|v: Vec<T>| v@), i as int);
            }
            c = c + self.outer[i].len();
            i = i + 1;
        }
        c
    }

    /// The same elements in the opposite order.
    pub fn rev(self) -> (r: Self)
        ensures
            r.items() == self.items().reverse(),
    {
        let ghost whole = self.items();
        let mut src = self.outer;
        let mut out: Vec<Vec<T>> = Vec::new();
        while src.len() > 0
            invariant
                flat_of(out@) + flat_of(src@).reverse() == whole.reverse(),
            decreases src.len(),
        {
            let ghost pre = src@;
            let v = match src.pop() {
                Some(v) => v,
                None => {
                    proof {
                        assert(false);
                    }
                    Vec::new()
                },
            };
            let rv = reversed(v);
            let ghost pre_out = out@;
            out.push(rv);
            proof {
                let m = pre.map_values(|x: Vec<T>| x@);
                lemma_flat_last(m);
                assert(m.last() == rv@.reverse());
                assert(m.drop_last() =~= src@.map_values(|x: Vec<T>| x@));
                lemma_reverse_concat(flat(m.drop_last()), m.last());
                assert(rv@.reverse().reverse() =~= rv@);
                assert(flat_of(pre).reverse() == rv@ + flat_of(src@).reverse());
                let mo = out@.map_values(|x: Vec<T>| x@);
                lemma_flat_last(mo);
                assert(mo.last() == rv@);
                assert(mo.drop_last() =~= pre_out.map_values(|x: Vec<T>| x@));
                assert(flat_of(out@) == flat_of(pre_out) + rv@);
                assert((flat_of(pre_out) + rv@) + flat_of(src@).reverse() =~= flat_of(pre_out) + (
                rv@ + flat_of(src@).reverse()));
            }
        }
        proof {
            assert(flat_of(out@) + flat_of(src@).reverse() =~= flat_of(out@));
        }
        Flatten { outer: out }
    }

    /// All remaining elements as one vector; consumes the collection.
    pub fn collect(self) -> (r: Vec<T>)
        ensures
            r@ == self.items(),
    {
        let ghost whole = self.items();
        let mut src = self.outer;
        let mut out: Vec<T> = Vec::new();
        while src.len() > 0
            invariant
                out@ + flat_of(src@) == whole,
            decreases src.len(),
        {
            let ghost pre = src@;
            let mut v = src.remove(0);
            proof {
                let m = pre.map_values(|x: Vec<T>| x@);
                assert(m.drop_first() =~= src@.map_values(|x: Vec<T>| x@));
                assert(out@ + (v@ + flat_of(src@)) =~= (out@ + v@) + flat_of(src@));
            }
            while v.len() > 0
                invariant
                    (out@ + v@) + flat_of(src@) == whole,
                decreases v.len(),
            {
                let ghost vp = v@;
                let x = v.remove(0);
                out.push(x);
                proof {
                    assert(out@ + v@ =~= out@.drop_last() + vp);
                }
            }
            proof {
                assert(out@ + v@ =~= out@);
            }
        }
        proof {
            assert(out@ + flat_of(src@) =~= out@);
        }
        out
    }
}

/// Flatten a two-level vector into a front-to-back element stream.
pub fn flatten<T>(iter: Vec<Vec<T>>) -> (r: Flatten<T>)
    ensures
        r.items() == flat_of(iter@),
{
    Flatten::new(iter)
}

/// Build a vector holding the elements of `v` in the opposite order.
pub(crate) fn reversed<T>(v: Vec<T>) -> (r: Vec<T>)
    ensures
        r@ == v@.reverse(),
{
    let ghost whole = v@;
    let mut v = v;
    let mut out: Vec<T> = Vec::new();
    while v.len() > 0
        invariant
            out@ + v@.reverse() == whole.reverse(),
        decreases v.len(),
    {
        let ghost pre = v@;
        let x = match v.pop() {
            Some(x) => x,
            None => {
                proof {
                    assert(false);
                }
                return out;
            },
        };
        out.push(x);
        proof {
            lemma_reverse_concat(v@, seq![x]);
            assert(pre.reverse() =~= seq![x] + v@.reverse());
            assert(out@ + v@.reverse() =~= out@.drop_last() + (seq![x] + v@.reverse()));
        }
    }
    proof {
        assert(out@ + v@.reverse() =~= out@);
    }
    out
}

/// Flattening as a method on two-level collections.
pub trait IteratorExt<T>: Sized {
    /// The elements that flattening would yield.
    spec fn flat_items(self) -> Seq<T>;

    fn our_flatten(self) -> (r: Flatten<T>)
        ensures
            r.items() == self.flat_items(),
    ;
}

impl<T> IteratorExt<T> for Vec<Vec<T>> {
    open spec fn flat_items(self) -> Seq<T> {
        flat_of(self@)
    }

    fn our_flatten(self) -> (r: Flatten<T>) {
        flatten(self)
    }
}

} // verus!
