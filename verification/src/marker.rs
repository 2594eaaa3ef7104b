//! Range markers: styled range decorations managed through opaque handles.

use vstd::prelude::*;

verus! {

/// Mathematical value of a [`Marker`]: positions as unbounded integers and
/// strings as character sequences, so that two markers are the same decoration
/// exactly when their views are equal.
#[verifier::ext_equal]
pub ghost struct MarkerView {
    pub start: (int, int),
    pub stop: (int, int),
    pub class: Seq<char>,
    pub ty: Seq<char>,
    pub in_front: bool,
}

/// A highlighted range in the widget, compared by full structural content.
///
/// `start` and `stop` are `(row, column)` positions; the producer is expected
/// to hand in ranges with `start` lexicographically at or before `stop`, but
/// nothing here depends on it.
#[derive(Debug)]
pub struct Marker {
    pub start: (usize, usize),
    pub stop: (usize, usize),
    pub class: String,
    pub ty: String,
    pub in_front: bool,
}

impl View for Marker {
    type V = MarkerView;

    open spec fn view(&self) -> MarkerView {
        MarkerView {
            start: (self.start.0 as int, self.start.1 as int),
            stop: (self.stop.0 as int, self.stop.1 as int),
            class: self.class@,
            ty: self.ty@,
            in_front: self.in_front,
        }
    }
}

impl Clone for Marker {
    fn clone(&self) -> (r: Marker)
        ensures
            r@ == self@,
    {
        Marker {
            start: self.start,
            stop: self.stop,
            class: self.class.clone(),
            ty: self.ty.clone(),
            in_front: self.in_front,
        }
    }
}

impl PartialEq for Marker {
    fn eq(&self, other: &Marker) -> (r: bool) {
        self.start.0 == other.start.0 && self.start.1 == other.start.1
            && self.stop.0 == other.stop.0 && self.stop.1 == other.stop.1
            && self.in_front == other.in_front && self.class == other.class
            && self.ty == other.ty
    }
}

impl Eq for Marker {

}

impl vstd::std_specs::cmp::PartialEqSpecImpl for Marker {
    open spec fn obeys_eq_spec() -> bool {
        true
    }

    open spec fn eq_spec(&self, other: &Marker) -> bool {
        self@ == other@
    }
}

/// Opaque identifier the widget returns when a marker is registered; the only
/// way to deregister that marker later. Never interpreted, only stored and
/// handed back.
#[derive(Clone, Copy, Debug, PartialEq, Eq, Structural)]
pub struct MarkerHandle {
    pub id: isize,
}

/// The desired marker state: a set of markers compared by value, in which
/// duplicates collapse. Viewed as a `Set<MarkerView>`.
pub struct MarkerSet {
    items: Vec<Marker>,
}

impl MarkerSet {
    /// The members in insertion order, duplicate-free whenever `inv` holds.
    pub closed spec fn elems(&self) -> Seq<MarkerView> {
        self.items@.map_values(|m: Marker| m@)
    }

    pub open spec fn inv(&self) -> bool {
        self.elems().no_duplicates()
    }

    pub fn new() -> (r: MarkerSet)
        ensures
            r.inv(),
            r.elems() == Seq::<MarkerView>::empty(),
            r@ == Set::<MarkerView>::empty(),
    {
        let r = MarkerSet { items: Vec::new() };
        proof {
            assert(r.elems() =~= Seq::<MarkerView>::empty());
            assert(r@ =~= Set::<MarkerView>::empty());
        }
        r
    }

    pub fn len(&self) -> (n: usize)
        ensures
            n == self.elems().len(),
    {
        self.items.len()
    }

    pub fn get(&self, i: usize) -> (m: &Marker)
        requires
            i < self.elems().len(),
        ensures
            m@ == self.elems()[i as int],
    {
        &self.items[i]
    }

    pub fn contains(&self, m: &Marker) -> (b: bool)
        ensures
            b == self@.contains(m@),
    {
        let n = self.items.len();
        for i in 0..n
            invariant
                n == self.items.len(),
                forall|j: int| 0 <= j < i ==> self.elems()[j] != m@,
        {
            if self.items[i] == *m {
                proof {
                    assert(self.elems()[i as int] == m@);
                    assert(self.elems().contains(m@));
                }
                return true;
            }
        }
        proof {
            assert(!self.elems().contains(m@));
        }
        false
    }

    /// Adds a marker; a marker already present by value is absorbed.
    pub fn insert(&mut self, m: Marker)
        requires
            old(self).inv(),
        ensures
            final(self).inv(),
            final(self)@ == old(self)@.insert(m@),
            final(self).elems() == (if old(self)@.contains(m@) {
                old(self).elems()
            } else {
                old(self).elems().push(m@)
            }),
    {
        let ghost pre = *old(self);
        if !self.contains(&m) {
            let ghost mv = m@;
            self.items.push(m);
            proof {
                assert(self.elems() =~= pre.elems().push(mv));
                assert(!pre.elems().contains(mv));
                assert(self.elems().no_duplicates());
                Seq::lemma_push_to_set_commute(pre.elems(), mv);
                assert(self@ =~= pre@.insert(mv));
            }
        } else {
            proof {
                assert(self@ =~= pre@.insert(m@));
            }
        }
    }
}

impl View for MarkerSet {
    type V = Set<MarkerView>;

    open spec fn view(&self) -> Set<MarkerView> {
        self.elems().to_set()
    }
}

} // verus!
