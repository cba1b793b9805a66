//! A vector of large items that keeps one small field of each item in an array of its own.

use vstd::prelude::*;
use vstd::std_specs::iter::IteratorSpec;

verus! {

/// How a [`SpeedVec`] gets the field that it keeps apart out of an item.
pub trait Extractor<T, S> {
    /// Whether the field of `item` can be asked for.
    spec fn accepts(&self, item: &T) -> bool;

    /// Whether `field` is a field of `item`.
    spec fn extracts(&self, item: &T, field: S) -> bool;

    /// The field of `item`.
    fn extract(&self, item: &T) -> (field: S)
        requires
            self.accepts(item),
        ensures
            self.extracts(item, field),
    ;
}

/// A function as an [`Extractor`].
pub struct ByFn<F>(pub F);

impl<T, S, F: Fn(&T) -> S> Extractor<T, S> for ByFn<F> {
    open spec fn accepts(&self, item: &T) -> bool {
        call_requires(self.0, (item,))
    }

    open spec fn extracts(&self, item: &T, field: S) -> bool {
        call_ensures(self.0, (item,), field)
    }

    fn extract(&self, item: &T) -> (field: S) {
        (self.0)(item)
    }
}

impl<F> ByFn<F> {
    /// The field of an item can be asked for where the function can be called on it, and what the
    /// function returns then is its field.
    pub proof fn lemma_opened<T, S>(&self, item: &T, field: S) where F: Fn(&T) -> S
        ensures
            <Self as Extractor<T, S>>::accepts(self, item) == call_requires(self.0, (item,)),
            <Self as Extractor<T, S>>::extracts(self, item, field) == call_ensures(
                self.0,
                (item,),
                field,
            ),
    {
    }
}

/// A partial `Vec` of a larger struct (`T`) with an extracted field (`S`), where going over the
/// fields is much faster than going over the items, because they lie side by side.
pub struct SpeedVec<T, S: Copy, E: Extractor<T, S>> {
    full_item: Vec<T>,
    contiguous_access: Vec<S>,
    extractor: E,
}

impl<T, S: Copy, E: Extractor<T, S>> View for SpeedVec<T, S, E> {
    type V = Seq<T>;

    closed spec fn view(&self) -> Seq<T> {
        self.full_item@
    }
}

impl<T, S: Copy, E: Extractor<T, S>> SpeedVec<T, S, E> {
    /// The fields, in the order of the items.
    pub closed spec fn fields(&self) -> Seq<S> {
        self.contiguous_access@
    }

    /// How the fields are extracted.
    pub closed spec fn extractor(&self) -> E {
        self.extractor
    }

    /// There is one field for each item, and it is the item's.
    pub open spec fn wf(&self) -> bool {
        &&& self.fields().len() == self@.len()
        &&& forall|i: int|
            0 <= i < self@.len() ==> #[trigger] self.extractor().extracts(
                &self@[i],
                self.fields()[i],
            )
    }

    /// An empty vector with room for `capacity` items.
    pub fn with_capacity(capacity: usize, extractor: E) -> (vec: Self)
        ensures
            vec.wf(),
            vec@ == Seq::<T>::empty(),
            vec.extractor() == extractor,
    {
        SpeedVec {
            full_item: Vec::with_capacity(capacity),
            contiguous_access: Vec::with_capacity(capacity),
            extractor,
        }
    }

    /// Appends `item`.
    pub fn push(&mut self, item: T)
        requires
            old(self).wf(),
            old(self).extractor().accepts(&item),
        ensures
            final(self).wf(),
            final(self)@ == old(self)@.push(item),
            final(self).extractor() == old(self).extractor(),
            final(self).fields().drop_last() == old(self).fields(),
    {
        let field = self.extractor.extract(&item);
        self.contiguous_access.push(field);
        self.full_item.push(item);
        proof {
            assert(self.fields().drop_last() =~= old(self).fields());
            assert forall|i: int| 0 <= i < self@.len() implies #[trigger] self.extractor().extracts(
                &self@[i],
                self.fields()[i],
            ) by {
                if i < old(self)@.len() {
                    assert(old(self).extractor().extracts(&old(self)@[i], old(self).fields()[i]));
                }
            }
        }
    }

    /// Removes all items.
    pub fn clear(&mut self)
        ensures
            final(self).wf(),
            final(self)@ == Seq::<T>::empty(),
            final(self).extractor() == old(self).extractor(),
    {
        self.contiguous_access.clear();
        self.full_item.clear();
    }

    /// Removes the item at `index` and returns it. The last item takes its place.
    pub fn swap_remove(&mut self, index: usize) -> (item: T)
        requires
            old(self).wf(),
            index < old(self)@.len(),
        ensures
            final(self).wf(),
            item == old(self)@[index as int],
            final(self)@ == old(self)@.update(index as int, old(self)@.last()).drop_last(),
            final(self).fields() == old(self).fields().update(
                index as int,
                old(self).fields().last(),
            ).drop_last(),
            final(self).extractor() == old(self).extractor(),
    {
        self.contiguous_access.swap_remove(index);
        let item = self.full_item.swap_remove(index);
        proof {
            assert forall|i: int| 0 <= i < self@.len() implies #[trigger] self.extractor().extracts(
                &self@[i],
                self.fields()[i],
            ) by {
                let from = if i == index { old(self)@.len() - 1 } else { i };
                assert(old(self).extractor().extracts(&old(self)@[from], old(self).fields()[from]));
            }
        }
        item
    }

    /// The fields, in the order of the items.
    pub fn iter_fast(&self) -> (iter: std::slice::Iter<'_, S>)
        ensures
            iter.remaining() == self.fields().as_ref(),
            iter.decrease() is Some,
            iter.initial_value_relation(&iter),
    {
        self.contiguous_access.iter()
    }

    /// The item at `index`, if there is one.
    pub fn get(&self, index: usize) -> (item: Option<&T>)
        ensures
            item == if index < self@.len() {
                Some(&self@[index as int])
            } else {
                None
            },
    {
        if index < self.full_item.len() {
            Some(&self.full_item[index])
        } else {
            None
        }
    }

    /// Access to the item at `index`, if there is one, that keeps its field up to date.
    pub fn get_mut(&mut self, index: usize) -> (guard: ModifyGuard<'_, T, S, E>)
        ensures
            guard.index == index,
            *guard.vec == *old(self),
            *final(guard.vec) == *final(self),
    {
        ModifyGuard { vec: self, index }
    }

    /// The number of items.
    pub fn len(&self) -> (len: usize)
        requires
            self.wf(),
        ensures
            len == self@.len(),
    {
        self.contiguous_access.len()
    }

    /// The items.
    pub fn inner(&self) -> (items: &[T])
        ensures
            items@ == self@,
    {
        self.full_item.as_slice()
    }
}

/// Access to one item of a [`SpeedVec`].
pub struct ModifyGuard<'a, T, S: Copy, E: Extractor<T, S>> {
    /// The vector that the item belongs to.
    pub vec: &'a mut SpeedVec<T, S, E>,
    /// Where the item stands.
    pub index: usize,
}

impl<'a, T, S: Copy, E: Extractor<T, S>> ModifyGuard<'a, T, S, E> {
    /// The item, if there is one at the guard's index.
    pub fn get(&self) -> (item: Option<&T>)
        ensures
            item == if self.index < old(self.vec)@.len() {
                Some(&old(self.vec)@[self.index as int])
            } else {
                None
            },
    {
        self.vec.get(self.index)
    }

    /// Puts `item` in the place of the item, if there is one at the guard's index, and brings
    /// its field up to date. Returns whether there was one.
    pub fn set(&mut self, item: T) -> (done: bool)
        requires
            old(self).vec.wf(),
            old(self).vec.extractor().accepts(&item),
        ensures
            final(self).vec.wf(),
            final(self).vec.extractor() == old(self).vec.extractor(),
            done == (old(self).index < old(self).vec@.len()),
            final(self).vec@ == if done {
                old(self).vec@.update(old(self).index as int, item)
            } else {
                old(self).vec@
            },
            final(self).index == old(self).index,
            *final(final(self).vec) == *final(old(self).vec),
    {
        let i = self.index;
        if i < self.vec.full_item.len() {
            let field = self.vec.extractor.extract(&item);
            self.vec.contiguous_access[i] = field;
            self.vec.full_item[i] = item;
            proof {
                assert forall|j: int| 0 <= j < self.vec@.len() implies #[trigger] self.vec.extractor().extracts(
                    &self.vec@[j],
                    self.vec.fields()[j],
                ) by {
                    assert(old(self).vec.extractor().extracts(&old(self).vec@[j], old(self).vec.fields()[j]));
                }
            }
            true
        } else {
            false
        }
    }
}

} // verus!
