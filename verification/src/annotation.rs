//! Inline annotations: positional diagnostics that are pushed to the widget
//! by replacing its whole annotation list, never by incremental updates.

use vstd::prelude::*;

verus! {

/// Mathematical value of an [`Annotation`]: the position as unbounded
/// integers and the strings as character sequences, so that two annotations
/// are the same diagnostic exactly when their views are equal.
#[verifier::ext_equal]
pub ghost struct AnnotationView {
    pub row: int,
    pub column: int,
    pub text: Seq<char>,
    pub ty: Seq<char>,
}

/// One inline diagnostic at a document position, compared by full structural
/// content.
#[derive(Debug)]
pub struct Annotation {
    pub row: usize,
    pub column: usize,
    pub text: String,
    pub ty: String,
}

impl View for Annotation {
    type V = AnnotationView;

    open spec fn view(&self) -> AnnotationView {
        AnnotationView {
            row: self.row as int,
            column: self.column as int,
            text: self.text@,
            ty: self.ty@,
        }
    }
}

impl Clone for Annotation {
    fn clone(&self) -> (r: Annotation)
        ensures
            r@ == self@,
    {
        Annotation {
            row: self.row,
            column: self.column,
            text: self.text.clone(),
            ty: self.ty.clone(),
        }
    }
}

impl PartialEq for Annotation {
    fn eq(&self, other: &Annotation) -> (r: bool) {
        self.row == other.row && self.column == other.column && self.text == other.text
            && self.ty == other.ty
    }
}

impl Eq for Annotation {

}

impl vstd::std_specs::cmp::PartialEqSpecImpl for Annotation {
    open spec fn obeys_eq_spec() -> bool {
        true
    }

    open spec fn eq_spec(&self, other: &Annotation) -> bool {
        self@ == other@
    }
}

/// The views of a sequence of annotations, in order.
pub open spec fn annotation_views(s: Seq<Annotation>) -> Seq<AnnotationView> {
    s.map_values(|a: Annotation| a@)
}

/// The desired annotation state: a set of annotations compared by value, in
/// which duplicates collapse. Viewed as a `Set<AnnotationView>`.
pub struct AnnotationSet {
    items: Vec<Annotation>,
}

impl AnnotationSet {
    /// The members in insertion order, duplicate-free whenever `inv` holds.
    pub closed spec fn elems(&self) -> Seq<AnnotationView> {
        annotation_views(self.items@)
    }

    pub open spec fn inv(&self) -> bool {
        self.elems().no_duplicates()
    }

    pub fn new() -> (r: AnnotationSet)
        ensures
            r.inv(),
            r.elems() == Seq::<AnnotationView>::empty(),
            r@ == Set::<AnnotationView>::empty(),
    {
        let r = AnnotationSet { items: Vec::new() };
        proof {
            assert(r.elems() =~= Seq::<AnnotationView>::empty());
            assert(r@ =~= Set::<AnnotationView>::empty());
        }
        r
    }

    pub fn len(&self) -> (n: usize)
        ensures
            n == self.elems().len(),
    {
        self.items.len()
    }

    pub fn get(&self, i: usize) -> (a: &Annotation)
        requires
            i < self.elems().len(),
        ensures
            a@ == self.elems()[i as int],
    {
        &self.items[i]
    }

    pub fn contains(&self, a: &Annotation) -> (b: bool)
        ensures
            b == self@.contains(a@),
    {
        let n = self.items.len();
        for i in 0..n
            invariant
                n == self.items.len(),
                forall|j: int| 0 <= j < i ==> self.elems()[j] != a@,
        {
            if self.items[i] == *a {
                proof {
                    assert(self.elems()[i as int] == a@);
                    assert(self.elems().contains(a@));
                }
                return true;
            }
        }
        proof {
            assert(!self.elems().contains(a@));
        }
        false
    }

    /// Adds an annotation; one already present by value is absorbed.
    pub fn insert(&mut self, a: Annotation)
        requires
            old(self).inv(),
        ensures
            final(self).inv(),
            final(self)@ == old(self)@.insert(a@),
            final(self).elems() == (if old(self)@.contains(a@) {
                old(self).elems()
            } else {
                old(self).elems().push(a@)
            }),
    {
        let ghost pre = *old(self);
        if !self.contains(&a) {
            let ghost av = a@;
            self.items.push(a);
            proof {
                assert(self.elems() =~= pre.elems().push(av));
                assert(!pre.elems().contains(av));
                assert(self.elems().no_duplicates());
                Seq::lemma_push_to_set_commute(pre.elems(), av);
                assert(self@ =~= pre@.insert(av));
            }
        } else {
            proof {
                assert(self@ =~= pre@.insert(a@));
            }
        }
    }

    /// The members as a list, one copy of each, in insertion order.
    pub fn to_vec(&self) -> (r: Vec<Annotation>)
        ensures
            annotation_views(r@) == self.elems(),
    {
        let mut out: Vec<Annotation> = Vec::new();
        let n = self.items.len();
        for i in 0..n
            invariant
                n == self.items.len(),
                annotation_views(out@) =~= self.elems().take(i as int),
        {
            let ghost pre = annotation_views(out@);
            out.push(self.items[i].clone());
            proof {
                assert(annotation_views(out@) =~= pre.push(self.elems()[i as int]));
                assert(self.elems().take(i + 1) =~= self.elems().take(i as int).push(
                    self.elems()[i as int],
                ));
            }
        }
        proof {
            assert(self.elems().take(n as int) =~= self.elems());
        }
        out
    }
}

impl View for AnnotationSet {
    type V = Set<AnnotationView>;

    open spec fn view(&self) -> Set<AnnotationView> {
        self.elems().to_set()
    }
}

/// One annotation-sync step. Without a live widget it is a deferred no-op and
/// prescribes no call; with one, it prescribes a single full-replace call
/// whose list holds exactly the desired annotations, each once — never a
/// partial update.
pub fn sync_payload(widget_ready: bool, desired: &AnnotationSet) -> (r: Option<Vec<Annotation>>)
    requires
        desired.inv(),
    ensures
        r is Some <==> widget_ready,
        r matches Some(v) ==> {
            &&& annotation_views(v@) == desired.elems()
            &&& annotation_views(v@).to_set() == desired@
            &&& annotation_views(v@).no_duplicates()
        },
{
    if widget_ready {
        Some(desired.to_vec())
    } else {
        None
    }
}

} // verus!
