//! The worst record seen so far along one error dimension.
use vstd::prelude::*;

verus! {

/// One step of the fold: a record with a defined metric replaces the held
/// one when its metric is strictly larger (or when nothing is held yet); a
/// record without a defined metric changes nothing.
pub open spec fn fold_step<E>(held: Option<(E, u64)>, record: E, metric: Option<u64>) -> Option<(E, u64)> {
    match metric {
        None => held,
        Some(m) => match held {
            None => Some((record, m)),
            Some((e, h)) => if m > h {
                Some((record, m))
            } else {
                Some((e, h))
            },
        },
    }
}

/// A metric that is undefined or at most `m`.
pub open spec fn at_most(metric: Option<u64>, m: u64) -> bool {
    match metric {
        Some(x) => x <= m,
        None => true,
    }
}

/// A metric that is undefined or below `m`.
pub open spec fn below(metric: Option<u64>, m: u64) -> bool {
    match metric {
        Some(x) => x < m,
        None => true,
    }
}

/// What a running maximum holds after folding `items` in order, starting empty.
pub open spec fn folded<E>(items: Seq<(E, Option<u64>)>) -> Option<(E, u64)>
    decreases items.len(),
{
    if items.len() == 0 {
        None
    } else {
        fold_step(folded(items.drop_last()), items.last().0, items.last().1)
    }
}

/// What a running maximum holding `init` holds after folding `items` in order.
pub open spec fn fold_from<E>(init: Option<(E, u64)>, items: Seq<(E, Option<u64>)>) -> Option<(E, u64)>
    decreases items.len(),
{
    if items.len() == 0 {
        init
    } else {
        fold_from(fold_step(init, items[0].0, items[0].1), items.skip(1))
    }
}

/// The record with the largest metric seen so far, with that metric.
///
/// A metric is an ordering key: larger keys are worse errors. A record
/// whose metric is undefined (`None`) is never held.
pub struct RunningMaximum<E> {
    held: Option<(E, u64)>,
}

impl<E> View for RunningMaximum<E> {
    type V = Option<(E, u64)>;

    closed spec fn view(&self) -> Option<(E, u64)> {
        self.held
    }
}

impl<E> RunningMaximum<E> {
    /// An empty running maximum: no record has been folded in.
    pub fn new() -> (r: Self)
        ensures
            r@ is None,
    {
        RunningMaximum { held: None }
    }

    /// Folds one record into the running maximum.
    pub fn fold(&mut self, record: E, metric: Option<u64>)
        ensures
            final(self)@ == fold_step(old(self)@, record, metric),
    {
        if let Some(m) = metric {
            let replace = match &self.held {
                None => true,
                Some((_, h)) => m > *h,
            };
            if replace {
                self.held = Some((record, m));
            }
        }
    }

    /// Whether some record is held.
    pub fn is_set(&self) -> (r: bool)
        ensures
            r == self@ is Some,
    {
        self.held.is_some()
    }

    /// The metric of the held record.
    pub fn metric(&self) -> (r: Option<u64>)
        ensures
            r == (match self@ {
                Some((_, m)) => Some(m),
                None => None,
            }),
    {
        match &self.held {
            Some((_, m)) => Some(*m),
            None => None,
        }
    }

    /// The held record, if any.
    pub fn record(&self) -> (r: Option<&E>)
        ensures
            r == (match self@ {
                Some((e, _)) => Some(&e),
                None => None,
            }),
    {
        match &self.held {
            Some((e, _)) => Some(e),
            None => None,
        }
    }

    /// Hands out the held record and its metric; there must be one.
    pub fn finish(self) -> (r: (E, u64))
        requires
            self@ is Some,
        ensures
            Some(r) == self@,
    {
        self.held.unwrap()
    }
}

/// After folding `items`, the running maximum is empty exactly when no item
/// had a defined metric; otherwise it holds the item with the largest metric,
/// and of several such items the one folded first.
pub proof fn lemma_folded_is_first_largest<E>(items: Seq<(E, Option<u64>)>)
    ensures
        folded(items) is None <==> forall|j: int| 0 <= j < items.len() ==> (#[trigger] items[j]).1 is None,
        folded(items) matches Some((e, m)) ==> exists|i: int|
            #![trigger items[i]]
            0 <= i < items.len() && items[i] == (e, Some(m)) && (forall|j: int|
                0 <= j < items.len() ==> at_most(#[trigger] items[j].1, m)) && (
            forall|j: int| 0 <= j < i ==> below(#[trigger] items[j].1, m)),
    decreases items.len(),
{
    if items.len() > 0 {
        let earlier = items.drop_last();
        lemma_folded_is_first_largest(earlier);
        let last = items.last();
        let n = items.len() - 1;
        assert forall|j: int| 0 <= j < n implies #[trigger] items[j] == earlier[j] by {}
        match folded(earlier) {
            None => {
                if let Some(m) = last.1 {
                    assert(items[n] == (last.0, Some(m)));
                    assert forall|j: int| 0 <= j < items.len() implies at_most(#[trigger] items[j].1, m) by {
                        if j < n {
                            assert(earlier[j].1 is None);
                        }
                    }
                    assert forall|j: int| 0 <= j < n implies below(#[trigger] items[j].1, m) by {
                        assert(earlier[j].1 is None);
                    }
                } else {
                    assert forall|j: int| 0 <= j < items.len() implies (#[trigger] items[j]).1 is None by {
                        if j < n {
                            assert(earlier[j].1 is None);
                        }
                    }
                }
            },
            Some((e0, h)) => {
                let i0 = choose|i: int|
                    #![trigger earlier[i]]
                    0 <= i < earlier.len() && earlier[i] == (e0, Some(h)) && (forall|j: int|
                        0 <= j < earlier.len() ==> at_most(#[trigger] earlier[j].1, h)) && (
                    forall|j: int| 0 <= j < i ==> below(#[trigger] earlier[j].1, h));
                assert(items[i0] == earlier[i0]);
                assert(earlier[i0].1 is Some);
                match last.1 {
                    Some(m) if m > h => {
                        assert(items[n] == (last.0, Some(m)));
                        assert forall|j: int| 0 <= j < items.len() implies at_most(#[trigger] items[j].1, m) by {
                            if j < n {
                                assert(items[j] == earlier[j]);
                            }
                        }
                        assert forall|j: int| 0 <= j < n implies below(#[trigger] items[j].1, m) by {
                            assert(items[j] == earlier[j]);
                        }
                    },
                    _ => {
                        assert forall|j: int| 0 <= j < items.len() implies at_most(#[trigger] items[j].1, h) by {
                            if j < n {
                                assert(items[j] == earlier[j]);
                            }
                        }
                        assert forall|j: int| 0 <= j < i0 implies below(#[trigger] items[j].1, h) by {
                            assert(items[j] == earlier[j]);
                        }
                    },
                }
            },
        }
    }
}

/// Folding one more record never lowers the held metric, and never empties
/// a running maximum that holds a record.
pub proof fn lemma_fold_never_decreases<E>(items: Seq<(E, Option<u64>)>, record: E, metric: Option<u64>)
    ensures
        folded(items) matches Some((_, h)) ==> folded(items.push((record, metric))) matches Some((_, h2)) && h2 >= h,
{
    assert(items.push((record, metric)).drop_last() =~= items);
}


pub proof fn lemma_fold_from_push<E>(init: Option<(E, u64)>, items: Seq<(E, Option<u64>)>, x: (E, Option<u64>))
    ensures
        fold_from(init, items.push(x)) == fold_step(fold_from(init, items), x.0, x.1),
    decreases items.len(),
{
    if items.len() > 0 {
        let first = fold_step(init, items[0].0, items[0].1);
        assert(items.push(x)[0] == items[0]);
        assert(items.push(x).skip(1) =~= items.skip(1).push(x));
        lemma_fold_from_push(first, items.skip(1), x);
    } else {
        reveal_with_fuel(fold_from, 2);
        assert(items.push(x)[0] == x);
        assert(items.push(x).skip(1) =~= Seq::<(E, Option<u64>)>::empty());
    }
}

/// Folding two runs of records one after the other is folding them joined.
pub proof fn lemma_fold_from_append<E>(init: Option<(E, u64)>, a: Seq<(E, Option<u64>)>, b: Seq<(E, Option<u64>)>)
    ensures
        fold_from(init, a + b) == fold_from(fold_from(init, a), b),
    decreases a.len(),
{
    if a.len() > 0 {
        let first = fold_step(init, a[0].0, a[0].1);
        assert((a + b).skip(1) =~= a.skip(1) + b);
        assert((a + b)[0] == a[0]);
        lemma_fold_from_append(first, a.skip(1), b);
    } else {
        assert(a + b =~= b);
    }
}

/// Folding from an empty running maximum is `folded`.
pub proof fn lemma_folded_is_fold_from<E>(items: Seq<(E, Option<u64>)>)
    ensures
        folded(items) == fold_from(None, items),
    decreases items.len(),
{
    if items.len() > 0 {
        lemma_folded_is_fold_from(items.drop_last());
        lemma_fold_from_push(None, items.drop_last(), items.last());
        assert(items.drop_last().push(items.last()) =~= items);
    }
}

} // verus!
