use crate::number::Double;
use vstd::prelude::*;

verus! {

/// Values with a place on the number line, by which they are ordered.
pub trait Ranked: Copy {
    /// The place of the value.
    spec fn place(&self) -> int;

    /// Whether the value comes before the other.
    fn precedes(&self, other: &Self) -> (r: bool)
        ensures
            r == (self.place() < other.place()),
    ;
}

impl Ranked for Double {
    open spec fn place(&self) -> int {
        self.rank()
    }

    fn precedes(&self, other: &Double) -> (r: bool) {
        self.lt(other)
    }
}

impl Ranked for u64 {
    open spec fn place(&self) -> int {
        *self as int
    }

    fn precedes(&self, other: &u64) -> (r: bool) {
        *self < *other
    }
}

/// The ordered values with `x` put in behind every value that does not
/// come after it.
pub open spec fn put_in<T: Ranked>(ordered: Seq<T>, x: T) -> Seq<T>
    decreases ordered.len(),
{
    if ordered.len() == 0 {
        seq![x]
    } else if x.place() < ordered.last().place() {
        put_in(ordered.drop_last(), x).push(ordered.last())
    } else {
        ordered.push(x)
    }
}

/// The values in order of their places; values of the same place keep the
/// order they had.
pub open spec fn in_order<T: Ranked>(values: Seq<T>) -> Seq<T>
    decreases values.len(),
{
    if values.len() == 0 {
        seq![]
    } else {
        put_in(in_order(values.drop_last()), values.last())
    }
}

/// No value comes before one that stands earlier.
pub open spec fn ordered<T: Ranked>(values: Seq<T>) -> bool {
    forall|i: int, j: int|
        0 <= i < j < values.len()
            ==> (#[trigger] values[i]).place() <= (#[trigger] values[j]).place()
}

/// Putting a value into ordered values keeps them ordered, and adds that
/// value to them and nothing else.
pub proof fn put_in_keeps_order<T: Ranked>(values: Seq<T>, x: T)
    requires
        ordered(values),
    ensures
        ordered(put_in(values, x)),
        put_in(values, x).len() == values.len() + 1,
        put_in(values, x).to_multiset() == values.to_multiset().insert(x),
    decreases values.len(),
{
    broadcast use vstd::seq_lib::to_multiset_build;

    if values.len() == 0 {
        assert(seq![x] =~= values.push(x));
    } else if x.place() < values.last().place() {
        let front = values.drop_last();
        let last = values.last();
        assert forall|i: int, j: int| 0 <= i < j < front.len()
            implies (#[trigger] front[i]).place() <= (
        #[trigger] front[j]).place() by {
            assert(values[i].place() <= values[j].place());
        }
        put_in_keeps_order(front, x);
        let put = put_in(front, x);
        assert(front.push(last) =~= values);
        assert forall|i: int| 0 <= i < put.len()
            implies (#[trigger] put[i]).place() <= last.place() by {
            vstd::seq_lib::to_multiset_contains(put, put[i]);
            vstd::seq_lib::to_multiset_contains(front, put[i]);
            assert(put.contains(put[i]));
            if put[i] != x {
                assert(front.contains(put[i]));
                let k = choose|k: int| 0 <= k < front.len() && front[k] == put[i];
                assert(values[k].place() <= values[values.len() - 1].place());
            }
        }
        assert(put.push(last).to_multiset() =~= values.to_multiset().insert(x));
    } else {
        assert forall|i: int, j: int| 0 <= i < j < values.push(x).len() implies (
        #[trigger] values.push(x)[i]).place() <= (#[trigger] values.push(x)[j]).place() by {
            if j < values.len() {
                assert(values[i].place() <= values[j].place());
            } else if i < values.len() - 1 {
                assert(values[i].place() <= values[values.len() - 1].place());
            }
        }
    }
}

/// The values in order are ordered, and are the same values, each as often
/// as before.
pub proof fn in_order_is_ordered<T: Ranked>(values: Seq<T>)
    ensures
        ordered(in_order(values)),
        in_order(values).len() == values.len(),
        in_order(values).to_multiset() == values.to_multiset(),
    decreases values.len(),
{
    broadcast use vstd::seq_lib::to_multiset_build;

    if values.len() > 0 {
        in_order_is_ordered(values.drop_last());
        put_in_keeps_order(in_order(values.drop_last()), values.last());
        assert(values.drop_last().push(values.last()) =~= values);
    } else {
        assert(values =~= Seq::<T>::empty());
    }
}

/// Collections that can be put in order.
pub trait FSort {
    /// Whether `after` is `before` put in order.
    spec fn sorts(before: &Self, after: &Self) -> bool;

    /// Puts the values in order of their places; values of the same place
    /// keep the order they had.
    fn f_sort(&mut self)
        ensures
            Self::sorts(old(self), final(self)),
    ;
}

impl<T: Ranked> FSort for Vec<T> {
    open spec fn sorts(before: &Vec<T>, after: &Vec<T>) -> bool {
        after@ == in_order(before@)
    }

    fn f_sort(&mut self) {
        let ghost before = self@;
        let mut i: usize = 0;
        assert(before.take(0) =~= Seq::empty());
        while i < self.len()
            invariant
                i <= self.len(),
                self@.len() == before.len(),
                self@.take(i as int) == in_order(before.take(i as int)),
                forall|k: int| i <= k < before.len() ==> #[trigger] self@[k] == before[k],
            decreases self.len() - i,
        {
            let x = self[i];
            let ghost sorted = self@.take(i as int);
            let mut j: usize = i;
            assert(sorted.take(j as int) =~= sorted);
            assert(sorted.skip(j as int) =~= Seq::<T>::empty());
            assert(put_in(sorted.take(j as int), x) + sorted.skip(j as int) =~= put_in(sorted, x));
            while j > 0 && x.precedes(&self[j - 1])
                invariant
                    j <= i < self.len(),
                    self@.len() == before.len(),
                    sorted.len() == i,
                    forall|k: int| 0 <= k < j ==> #[trigger] self@[k] == sorted[k],
                    forall|k: int| j < k <= i ==> #[trigger] self@[k] == sorted[k - 1],
                    forall|k: int| i < k < before.len() ==> #[trigger] self@[k] == before[k],
                    put_in(sorted, x) == put_in(sorted.take(j as int), x) + sorted.skip(j as int),
                decreases j,
            {
                let moved = self[j - 1];
                self[j] = moved;
                proof {
                    let front = sorted.take(j as int);
                    assert(front.last() == moved);
                    assert(front.drop_last() =~= sorted.take(j - 1));
                    assert(put_in(front, x) == put_in(sorted.take(j - 1), x).push(moved));
                    assert(sorted.skip(j - 1) =~= seq![moved] + sorted.skip(j as int));
                    assert(put_in(sorted, x)
                        =~= put_in(sorted.take(j - 1), x) + sorted.skip(j - 1));
                }
                j -= 1;
            }
            self[j] = x;
            proof {
                let front = sorted.take(j as int);
                if j > 0 {
                    assert(front.last() == self@[j - 1]);
                }
                assert(put_in(front, x) == front.push(x));
                assert(self@.take(i + 1) =~= front.push(x) + sorted.skip(j as int));
                assert(before.take(i + 1).drop_last() =~= before.take(i as int));
                assert(before.take(i + 1).last() == x);
            }
            i += 1;
        }
        assert(self@.take(self@.len() as int) =~= self@);
        assert(before.take(before.len() as int) =~= before);
    }
}

} // verus!
