//! Retaining the entries of a vector by a test that sees more than the
//! entry: its index, or the entries behind it.

use crate::dominance::swap_entries;
use vstd::prelude::*;
use vstd::slice::slice_subrange;

verus! {

/// The entries of `items` whose flag in `keep` is set, in their order.
pub open spec fn kept<T>(items: Seq<T>, keep: Seq<bool>) -> Seq<T>
    decreases items.len(),
{
    if items.len() == 0 || keep.len() != items.len() {
        Seq::empty()
    } else if keep.last() {
        kept(items.drop_last(), keep.drop_last()).push(items.last())
    } else {
        kept(items.drop_last(), keep.drop_last())
    }
}

/// Retaining by index and entry.
pub trait EnumeratedRetain<T>: Sized {
    /// The entries.
    spec fn items(&self) -> Seq<T>;

    /// Keeps the entries for which `f`, given the index and the entry, says
    /// so, in their order.
    fn retain_enumerate<F>(&mut self, f: F) where F: Fn(usize, &T) -> bool
        requires
            forall|i: int|
                0 <= i < old(self).items().len() ==> call_requires(
                    f,
                    (i as usize, &#[trigger] old(self).items()[i]),
                ),
        ensures
            exists|keep: Seq<bool>|
                {
                    &&& keep.len() == old(self).items().len()
                    &&& forall|i: int|
                        0 <= i < keep.len() ==> call_ensures(
                            f,
                            (i as usize, &old(self).items()[i]),
                            #[trigger] keep[i],
                        )
                    &&& final(self).items() == kept(old(self).items(), keep)
                },
    ;
}

impl<T> EnumeratedRetain<T> for Vec<T> {
    open spec fn items(&self) -> Seq<T> {
        self@
    }

    fn retain_enumerate<F>(&mut self, f: F) where F: Fn(usize, &T) -> bool {
        let len = self.len();
        let ghost all = self@;
        let ghost mut keep: Seq<bool> = Seq::empty();
        let mut del: usize = 0;
        let mut i: usize = 0;
        proof {
            assert(all.take(0) =~= Seq::<T>::empty());
            assert(self@.take(0) =~= kept(all.take(0), keep));
            assert forall|k: int| 0 <= k < all.len() implies call_requires(
                f,
                (k as usize, &#[trigger] all[k]),
            ) by {
                assert(all[k] == old(self).items()[k]);
            }
        }
        while i < len
            invariant
                del <= i <= len,
                len == self.len(),
                len == all.len(),
                keep.len() == i,
                forall|k: int|
                    0 <= k < all.len() ==> call_requires(f, (k as usize, &#[trigger] all[k])),
                forall|k: int|
                    0 <= k < i ==> call_ensures(f, (k as usize, &all[k]), #[trigger] keep[k]),
                forall|k: int| i <= k < len ==> #[trigger] self@[k] == all[k],
                self@.take(i - del) == kept(all.take(i as int), keep),
            decreases len - i,
        {
            let ghost before = self@;
            let ghost flags = keep;
            let wanted = f(i, &self[i]);
            proof {
                keep = keep.push(wanted);
                assert(all.take(i + 1).drop_last() =~= all.take(i as int));
                assert(keep.drop_last() =~= flags);
            }
            if !wanted {
                del += 1;
            } else if del > 0 {
                swap_entries(self, i - del, i);
                proof {
                    assert(self@.take(i - del + 1) =~= before.take(i - del).push(all[i as int]));
                }
            } else {
                proof {
                    assert(self@.take(i + 1) =~= before.take(i as int).push(all[i as int]));
                }
            }
            i += 1;
        }
        if del > 0 {
            self.truncate(len - del);
        }
        proof {
            assert(all.take(len as int) =~= all);
            assert(self@ =~= kept(all, keep));
        }
    }
}

/// `keep` holds what `f` said of each of `items`, given the entries behind
/// it as the slice in `rests`.
pub open spec fn judged_with_rest<T, F: Fn(&T, &[T]) -> bool>(
    f: F,
    items: Seq<T>,
    keep: Seq<bool>,
    rests: Seq<&[T]>,
) -> bool {
    &&& keep.len() == items.len()
    &&& rests.len() == items.len()
    &&& forall|i: int|
        0 <= i < keep.len() ==> (#[trigger] rests[i])@ == items.skip(i + 1) && call_ensures(
            f,
            (&items[i], rests[i]),
            keep[i],
        )
}

/// Retaining by the entry and the entries behind it.
pub trait SplitLastRetain<T>: Sized {
    /// The entries.
    spec fn entries(&self) -> Seq<T>;

    /// Keeps the entries for which `f`, given the entry and the entries that
    /// stood behind it, says so, in their order.
    fn retain_split_last<F>(&mut self, f: F) where F: Fn(&T, &[T]) -> bool
        requires
            forall|i: int, rest: &[T]|
                0 <= i < old(self).entries().len() && rest@ == old(self).entries().skip(i + 1)
                    ==> #[trigger] call_requires(f, (&old(self).entries()[i], rest)),
        ensures
            exists|keep: Seq<bool>, rests: Seq<&[T]>|
                {
                    &&& #[trigger] judged_with_rest(f, old(self).entries(), keep, rests)
                    &&& final(self).entries() == kept(old(self).entries(), keep)
                },
    ;
}

impl<T> SplitLastRetain<T> for Vec<T> {
    open spec fn entries(&self) -> Seq<T> {
        self@
    }

    fn retain_split_last<F>(&mut self, f: F) where F: Fn(&T, &[T]) -> bool {
        let len = self.len();
        let ghost all = self@;
        let ghost mut keep: Seq<bool> = Seq::empty();
        let ghost mut rests: Seq<&[T]> = Seq::empty();
        let mut del: usize = 0;
        let mut i: usize = 0;
        proof {
            assert(all.take(0) =~= Seq::<T>::empty());
            assert(self@.take(0) =~= kept(all.take(0), keep));
        }
        while i < len
            invariant
                del <= i <= len,
                len == self.len(),
                len == all.len(),
                all == old(self).entries(),
                keep.len() == i,
                rests.len() == i,
                forall|k: int, rest: &[T]|
                    0 <= k < old(self).entries().len() && rest@ == old(self).entries().skip(k + 1)
                        ==> #[trigger] call_requires(f, (&old(self).entries()[k], rest)),
                forall|k: int|
                    0 <= k < i ==> (#[trigger] rests[k])@ == all.skip(k + 1) && call_ensures(
                        f,
                        (&all[k], rests[k]),
                        keep[k],
                    ),
                forall|k: int| i <= k < len ==> #[trigger] self@[k] == all[k],
                self@.take(i - del) == kept(all.take(i as int), keep),
            decreases len - i,
        {
            let ghost before = self@;
            let ghost flags = keep;
            let ghost seen = rests;
            let rest = slice_subrange(self.as_slice(), i + 1, len);
            proof {
                assert(rest@ =~= all.skip(i + 1));
            }
            let wanted = f(&self[i], rest);
            proof {
                keep = keep.push(wanted);
                rests = rests.push(rest);
                assert(all.take(i + 1).drop_last() =~= all.take(i as int));
                assert(keep.drop_last() =~= flags);
                assert forall|k: int| 0 <= k < i + 1 implies (#[trigger] rests[k])@ == all.skip(
                    k + 1,
                ) && call_ensures(f, (&all[k], rests[k]), keep[k]) by {
                    if k < i {
                        assert(rests[k] == seen[k]);
                        assert(keep[k] == flags[k]);
                    }
                }
            }
            if !wanted {
                del += 1;
            } else if del > 0 {
                swap_entries(self, i - del, i);
                proof {
                    assert(self@.take(i - del + 1) =~= before.take(i - del).push(all[i as int]));
                }
            } else {
                proof {
                    assert(self@.take(i + 1) =~= before.take(i as int).push(all[i as int]));
                }
            }
            i += 1;
        }
        if del > 0 {
            self.truncate(len - del);
        }
        proof {
            assert(all.take(len as int) =~= all);
            assert(self@ =~= kept(all, keep));
            assert(judged_with_rest(f, all, keep, rests));
        }
    }
}

} // verus!
