//! The marker reconciler: makes the set of markers registered with the live
//! widget equal to the desired marker set using only incremental add and
//! remove calls, while its handle table and the widget's registered markers
//! never diverge.

use vstd::prelude::*;

use crate::marker::{Marker, MarkerHandle, MarkerSet, MarkerView};

verus! {

/// The mapping described by a sequence of (marker, handle) entries; with
/// pairwise-distinct keys every entry is in force.
pub open spec fn pairs_to_map(s: Seq<(MarkerView, MarkerHandle)>) -> Map<MarkerView, MarkerHandle>
    decreases s.len(),
{
    if s.len() == 0 {
        Map::empty()
    } else {
        pairs_to_map(s.drop_last()).insert(s.last().0, s.last().1)
    }
}

/// The keys of a sequence of (marker, handle) entries, in entry order.
pub open spec fn keys_of(s: Seq<(MarkerView, MarkerHandle)>) -> Seq<MarkerView> {
    s.map_values(|p: (MarkerView, MarkerHandle)| p.0)
}

/// The views of a sequence of markers, in order.
pub open spec fn marker_views(s: Seq<Marker>) -> Seq<MarkerView> {
    s.map_values(|m: Marker| m@)
}

/// The views of a sequence of (marker, handle) entries, in order.
pub open spec fn entry_views_of(s: Seq<(Marker, MarkerHandle)>) -> Seq<(MarkerView, MarkerHandle)> {
    s.map_values(|e: (Marker, MarkerHandle)| (e.0@, e.1))
}

proof fn lemma_pairs_to_map_dom(s: Seq<(MarkerView, MarkerHandle)>)
    ensures
        pairs_to_map(s).dom() =~= keys_of(s).to_set(),
    decreases s.len(),
{
    if s.len() == 0 {
        assert(keys_of(s).to_set() =~= Set::<MarkerView>::empty());
    } else {
        lemma_pairs_to_map_dom(s.drop_last());
        assert(keys_of(s.drop_last()) =~= keys_of(s).drop_last());
        Seq::lemma_push_to_set_commute(keys_of(s).drop_last(), s.last().0);
        assert(keys_of(s).drop_last().push(s.last().0) =~= keys_of(s));
    }
}

proof fn lemma_pairs_to_map_index(s: Seq<(MarkerView, MarkerHandle)>, i: int)
    requires
        keys_of(s).no_duplicates(),
        0 <= i < s.len(),
    ensures
        pairs_to_map(s).dom().contains(s[i].0),
        pairs_to_map(s)[s[i].0] == s[i].1,
    decreases s.len(),
{
    if i == s.len() - 1 {
    } else {
        assert(keys_of(s.drop_last()) =~= keys_of(s).drop_last());
        assert(keys_of(s.drop_last()).no_duplicates());
        lemma_pairs_to_map_index(s.drop_last(), i);
        assert(s.drop_last()[i] == s[i]);
        assert(keys_of(s)[i] != keys_of(s)[s.len() - 1]);
    }
}

proof fn lemma_pairs_to_map_remove(s: Seq<(MarkerView, MarkerHandle)>, i: int)
    requires
        keys_of(s).no_duplicates(),
        0 <= i < s.len(),
    ensures
        pairs_to_map(s.remove(i)) =~= pairs_to_map(s).remove(s[i].0),
    decreases s.len(),
{
    assert(keys_of(s.drop_last()) =~= keys_of(s).drop_last());
    if i == s.len() - 1 {
        assert(s.remove(i) =~= s.drop_last());
        lemma_pairs_to_map_dom(s.drop_last());
        assert forall|j: int| 0 <= j < keys_of(s.drop_last()).len() implies keys_of(s.drop_last())[j]
            != s[i].0 by {
            assert(keys_of(s)[j] != keys_of(s)[i]);
        }
        assert(!keys_of(s.drop_last()).to_set().contains(s[i].0));
        assert(pairs_to_map(s.drop_last()) =~= pairs_to_map(s).remove(s[i].0));
    } else {
        lemma_pairs_to_map_remove(s.drop_last(), i);
        assert(s.remove(i).drop_last() =~= s.drop_last().remove(i));
        assert(s.remove(i).last() == s.last());
        assert(s.drop_last()[i] == s[i]);
        assert(keys_of(s)[i] != keys_of(s)[s.len() - 1]);
        assert(pairs_to_map(s.remove(i)) =~= pairs_to_map(s.drop_last().remove(i)).insert(
            s.last().0,
            s.last().1,
        ));
        assert(pairs_to_map(s.drop_last()).remove(s[i].0).insert(s.last().0, s.last().1)
            =~= pairs_to_map(s.drop_last()).insert(s.last().0, s.last().1).remove(s[i].0));
    }
}

/// Owns the handle table: the authoritative mapping from each registered
/// marker (by value) to the opaque handle the widget returned when the marker
/// was added. Entries enter and leave the table in step with the widget calls
/// the host performs, so the table and the widget's registered-marker set
/// stay equal.
pub struct MarkerReconciler {
    entries: Vec<(Marker, MarkerHandle)>,
}

impl MarkerReconciler {
    /// The table's entries, as mathematical values, in insertion order.
    pub closed spec fn entry_views(&self) -> Seq<(MarkerView, MarkerHandle)> {
        entry_views_of(self.entries@)
    }

    pub open spec fn inv(&self) -> bool {
        keys_of(self.entry_views()).no_duplicates()
    }

    /// A fresh reconciler with an empty handle table, as at widget creation.
    pub fn new() -> (r: MarkerReconciler)
        ensures
            r.inv(),
            r@ == Map::<MarkerView, MarkerHandle>::empty(),
    {
        let r = MarkerReconciler { entries: Vec::new() };
        proof {
            assert(r.entry_views() =~= Seq::<(MarkerView, MarkerHandle)>::empty());
        }
        r
    }

    /// Drops every entry, for a widget instance that was torn down: handles
    /// are meaningless across instances, so a recreated widget starts from an
    /// empty table.
    pub fn reset(&mut self)
        ensures
            final(self).inv(),
            final(self)@ == Map::<MarkerView, MarkerHandle>::empty(),
    {
        self.entries.clear();
        proof {
            assert(self.entry_views() =~= Seq::<(MarkerView, MarkerHandle)>::empty());
        }
    }

    /// The index of the entry for this marker value, if one is registered.
    fn position_of(&self, m: &Marker) -> (r: Option<usize>)
        ensures
            match r {
                Some(i) => i < self.entry_views().len() && self.entry_views()[i as int].0 == m@,
                None => !keys_of(self.entry_views()).contains(m@),
            },
    {
        let n = self.entries.len();
        for i in 0..n
            invariant
                n == self.entries.len(),
                forall|j: int| 0 <= j < i ==> self.entry_views()[j].0 != m@,
        {
            if self.entries[i].0 == *m {
                proof {
                    assert(self.entry_views()[i as int].0 == m@);
                }
                return Some(i);
            }
        }
        proof {
            assert forall|j: int| 0 <= j < self.entry_views().len() implies keys_of(
                self.entry_views(),
            )[j] != m@ by {
                assert(self.entry_views()[j].0 != m@);
            }
        }
        None
    }

    /// The handle recorded for this marker value, if it is registered.
    pub fn handle_for(&self, m: &Marker) -> (r: Option<MarkerHandle>)
        requires
            self.inv(),
        ensures
            match r {
                Some(h) => self@.dom().contains(m@) && self@[m@] == h,
                None => !self@.dom().contains(m@),
            },
    {
        proof {
            lemma_pairs_to_map_dom(self.entry_views());
        }
        match self.position_of(m) {
            Some(i) => {
                proof {
                    lemma_pairs_to_map_index(self.entry_views(), i as int);
                }
                Some(self.entries[i].1)
            },
            None => None,
        }
    }

    /// Whether this marker value is registered, i.e. is a key of the table.
    pub fn is_registered(&self, m: &Marker) -> (b: bool)
        requires
            self.inv(),
        ensures
            b == self@.dom().contains(m@),
    {
        self.handle_for(m).is_some()
    }

    /// Records the handle the widget returned for a newly added marker. To be
    /// called synchronously with the widget's add call, and only when that
    /// call succeeded: a failed add must leave no entry behind.
    pub fn record_add(&mut self, m: Marker, h: MarkerHandle)
        requires
            old(self).inv(),
            !old(self)@.dom().contains(m@),
        ensures
            final(self).inv(),
            final(self)@ == old(self)@.insert(m@, h),
    {
        let ghost pre = *old(self);
        proof {
            lemma_pairs_to_map_dom(pre.entry_views());
        }
        let ghost mv = m@;
        self.entries.push((m, h));
        proof {
            assert(self.entry_views() =~= pre.entry_views().push((mv, h)));
            assert(keys_of(self.entry_views()) =~= keys_of(pre.entry_views()).push(mv));
            assert(!keys_of(pre.entry_views()).to_set().contains(mv));
            assert(keys_of(self.entry_views()).no_duplicates());
            assert(self.entry_views().drop_last() =~= pre.entry_views());
            assert(self@ == pre@.insert(mv, h));
        }
    }

    /// Forgets the entry for a marker the widget was just told to remove. To
    /// be called synchronously with the widget's remove call.
    pub fn record_remove(&mut self, m: &Marker)
        requires
            old(self).inv(),
            old(self)@.dom().contains(m@),
        ensures
            final(self).inv(),
            final(self)@ == old(self)@.remove(m@),
    {
        let ghost pre = *old(self);
        proof {
            lemma_pairs_to_map_dom(pre.entry_views());
        }
        match self.position_of(m) {
            Some(i) => {
                self.entries.remove(i);
                proof {
                    assert(self.entry_views() =~= pre.entry_views().remove(i as int));
                    assert(keys_of(self.entry_views()) =~= keys_of(pre.entry_views()).remove(
                        i as int,
                    ));
                    keys_of(pre.entry_views()).remove_ensures(i as int);
                    assert(keys_of(self.entry_views()).no_duplicates());
                    lemma_pairs_to_map_remove(pre.entry_views(), i as int);
                    assert(self@ =~= pre@.remove(m@));
                }
            },
            None => {
                proof {
                    assert(false);
                }
            },
        }
    }
}

/// The calls one reconciliation pass must make: markers to add to the widget,
/// and (marker, recorded handle) pairs to remove from it. Additions are listed
/// first by design, so a host applying the plan in order avoids transient
/// gaps where overlapping ranges flicker.
pub struct ReconcilePlan {
    pub adds: Vec<Marker>,
    pub removes: Vec<(Marker, MarkerHandle)>,
}

impl ReconcilePlan {
    pub open spec fn add_views(&self) -> Seq<MarkerView> {
        marker_views(self.adds@)
    }

    pub open spec fn remove_views(&self) -> Seq<(MarkerView, MarkerHandle)> {
        entry_views_of(self.removes@)
    }

    /// What the reconciliation algorithm prescribes against handle table
    /// `table` for desired set `desired`: the additions are exactly the
    /// desired markers not yet registered, the removals exactly the
    /// registered markers no longer desired, each removal carrying the handle
    /// that was recorded when that marker was added.
    pub open spec fn describes(
        &self,
        table: Map<MarkerView, MarkerHandle>,
        desired: Set<MarkerView>,
    ) -> bool {
        &&& self.add_views().no_duplicates()
        &&& self.add_views().to_set() == desired.difference(table.dom())
        &&& keys_of(self.remove_views()).no_duplicates()
        &&& keys_of(self.remove_views()).to_set() == table.dom().difference(desired)
        &&& forall|i: int|
            0 <= i < self.remove_views().len() ==> table.dom().contains(
                (#[trigger] self.remove_views()[i]).0,
            ) && table[self.remove_views()[i].0] == self.remove_views()[i].1
    }

    /// The conditions under which the plan can be committed against `table`:
    /// what `describes` gives, less any mention of the desired set.
    pub open spec fn applies_to(&self, table: Map<MarkerView, MarkerHandle>) -> bool {
        &&& self.add_views().no_duplicates()
        &&& forall|i: int|
            0 <= i < self.add_views().len() ==> !table.dom().contains(
                #[trigger] self.add_views()[i],
            )
        &&& keys_of(self.remove_views()).no_duplicates()
        &&& forall|i: int|
            0 <= i < self.remove_views().len() ==> table.dom().contains(
                (#[trigger] self.remove_views()[i]).0,
            ) && table[self.remove_views()[i].0] == self.remove_views()[i].1
    }
}

/// The handle table that results from recording `adds[i] -> handles[i]` in
/// order, on top of `table`.
pub open spec fn insert_all(
    table: Map<MarkerView, MarkerHandle>,
    adds: Seq<MarkerView>,
    handles: Seq<MarkerHandle>,
) -> Map<MarkerView, MarkerHandle>
    recommends
        adds.len() == handles.len(),
    decreases adds.len(),
{
    if adds.len() == 0 {
        table
    } else {
        insert_all(table, adds.drop_last(), handles.drop_last()).insert(
            adds.last(),
            handles.last(),
        )
    }
}

/// The handle table a full pass leaves behind: every addition recorded with
/// its returned handle, then every removal's entry dropped.
pub open spec fn table_after_pass(
    table: Map<MarkerView, MarkerHandle>,
    plan: ReconcilePlan,
    handles: Seq<MarkerHandle>,
) -> Map<MarkerView, MarkerHandle> {
    insert_all(table, plan.add_views(), handles).remove_keys(
        keys_of(plan.remove_views()).to_set(),
    )
}

proof fn lemma_insert_all_dom(
    table: Map<MarkerView, MarkerHandle>,
    adds: Seq<MarkerView>,
    handles: Seq<MarkerHandle>,
)
    requires
        adds.len() == handles.len(),
    ensures
        insert_all(table, adds, handles).dom() =~= table.dom().union(adds.to_set()),
    decreases adds.len(),
{
    if adds.len() == 0 {
        assert(adds.to_set() =~= Set::<MarkerView>::empty());
    } else {
        lemma_insert_all_dom(table, adds.drop_last(), handles.drop_last());
        Seq::lemma_push_to_set_commute(adds.drop_last(), adds.last());
        assert(adds.drop_last().push(adds.last()) =~= adds);
    }
}

proof fn lemma_insert_all_untouched(
    table: Map<MarkerView, MarkerHandle>,
    adds: Seq<MarkerView>,
    handles: Seq<MarkerHandle>,
    k: MarkerView,
)
    requires
        adds.len() == handles.len(),
        !adds.to_set().contains(k),
        table.dom().contains(k),
    ensures
        insert_all(table, adds, handles).dom().contains(k),
        insert_all(table, adds, handles)[k] == table[k],
    decreases adds.len(),
{
    if adds.len() > 0 {
        assert(!adds.drop_last().to_set().contains(k)) by {
            assert(forall|i: int|
                0 <= i < adds.drop_last().len() ==> adds.drop_last()[i] == adds[i]);
        }
        lemma_insert_all_untouched(table, adds.drop_last(), handles.drop_last(), k);
        assert(adds.last() != k);
    }
}

proof fn lemma_insert_all_index(
    table: Map<MarkerView, MarkerHandle>,
    adds: Seq<MarkerView>,
    handles: Seq<MarkerHandle>,
    i: int,
)
    requires
        adds.len() == handles.len(),
        adds.no_duplicates(),
        0 <= i < adds.len(),
    ensures
        insert_all(table, adds, handles).dom().contains(adds[i]),
        insert_all(table, adds, handles)[adds[i]] == handles[i],
    decreases adds.len(),
{
    if i == adds.len() - 1 {
    } else {
        lemma_insert_all_index(table, adds.drop_last(), handles.drop_last(), i);
        assert(adds[i] != adds.last());
    }
}

impl MarkerReconciler {
    /// Computes the calls this pass must make so that the registered marker
    /// set becomes `desired`: one addition per desired marker not yet
    /// registered, one removal per registered marker no longer desired, and
    /// nothing for a marker that is in both.
    fn plan(&self, desired: &MarkerSet) -> (p: ReconcilePlan)
        requires
            self.inv(),
            desired.inv(),
        ensures
            p.describes(self@, desired@),
    {
        proof {
            lemma_pairs_to_map_dom(self.entry_views());
        }
        let mut adds: Vec<Marker> = Vec::new();
        let dn = desired.len();
        for i in 0..dn
            invariant
                dn == desired.elems().len(),
                self.inv(),
                desired.inv(),
                marker_views(adds@).no_duplicates(),
                marker_views(adds@).to_set() =~= desired.elems().take(
                    i as int,
                ).to_set().difference(self@.dom()),
        {
            let ghost pre_adds = marker_views(adds@);
            let ghost ev = desired.elems()[i as int];
            let m = desired.get(i);
            if !self.is_registered(m) {
                adds.push(m.clone());
                proof {
                    assert(marker_views(adds@) =~= pre_adds.push(ev));
                    assert(!pre_adds.to_set().contains(ev)) by {
                        if pre_adds.to_set().contains(ev) {
                            assert(desired.elems().take(i as int).to_set().contains(ev));
                            let k = choose|k: int|
                                0 <= k < i && desired.elems().take(i as int)[k] == ev;
                            assert(desired.elems()[k] == desired.elems()[i as int]);
                        }
                    }
                    assert(marker_views(adds@).no_duplicates());
                    Seq::lemma_push_to_set_commute(pre_adds, ev);
                    assert(desired.elems().take(i + 1) =~= desired.elems().take(i as int).push(
                        ev,
                    ));
                    Seq::lemma_push_to_set_commute(desired.elems().take(i as int), ev);
                    assert(pre_adds.to_set().insert(ev) =~= desired.elems().take(i
                        + 1).to_set().difference(self@.dom()));
                }
            } else {
                proof {
                    assert(desired.elems().take(i + 1) =~= desired.elems().take(i as int).push(
                        ev,
                    ));
                    Seq::lemma_push_to_set_commute(desired.elems().take(i as int), ev);
                    assert(pre_adds.to_set() =~= desired.elems().take(i + 1).to_set().difference(
                        self@.dom(),
                    ));
                }
            }
        }
        proof {
            assert(desired.elems().take(dn as int) =~= desired.elems());
        }

        let mut removes: Vec<(Marker, MarkerHandle)> = Vec::new();
        let n = self.entries.len();
        for i in 0..n
            invariant
                n == self.entries.len(),
                self.inv(),
                desired.inv(),
                keys_of(entry_views_of(removes@)).no_duplicates(),
                keys_of(entry_views_of(removes@)).to_set()
                    =~= keys_of(self.entry_views()).take(i as int).to_set().difference(desired@),
                forall|j: int|
                    0 <= j < removes@.len() ==> self@.dom().contains(
                        (#[trigger] entry_views_of(removes@)[j]).0,
                    ) && self@[entry_views_of(removes@)[j].0]
                        == entry_views_of(removes@)[j].1,
        {
            let ghost pre_rm = entry_views_of(removes@);
            let ghost entry = self.entry_views()[i as int];
            if !desired.contains(&self.entries[i].0) {
                let mcopy = self.entries[i].0.clone();
                removes.push((mcopy, self.entries[i].1));
                proof {
                    assert(entry_views_of(removes@)
                        =~= pre_rm.push(entry));
                    assert(keys_of(pre_rm.push(entry)) =~= keys_of(pre_rm).push(entry.0));
                    assert(!keys_of(pre_rm).to_set().contains(entry.0)) by {
                        if keys_of(pre_rm).to_set().contains(entry.0) {
                            assert(keys_of(self.entry_views()).take(i as int).to_set().contains(
                                entry.0,
                            ));
                            let k = choose|k: int|
                                0 <= k < i && keys_of(self.entry_views()).take(i as int)[k]
                                    == entry.0;
                            assert(keys_of(self.entry_views())[k] == keys_of(self.entry_views())[
                                i as int
                            ]);
                        }
                    }
                    Seq::lemma_push_to_set_commute(keys_of(pre_rm), entry.0);
                    assert(keys_of(self.entry_views()).take(i + 1) =~= keys_of(
                        self.entry_views(),
                    ).take(i as int).push(entry.0));
                    Seq::lemma_push_to_set_commute(
                        keys_of(self.entry_views()).take(i as int),
                        entry.0,
                    );
                    assert(keys_of(pre_rm).to_set().insert(entry.0) =~= keys_of(
                        self.entry_views(),
                    ).take(i + 1).to_set().difference(desired@));
                    lemma_pairs_to_map_index(self.entry_views(), i as int);
                }
            } else {
                proof {
                    assert(keys_of(self.entry_views()).take(i + 1) =~= keys_of(
                        self.entry_views(),
                    ).take(i as int).push(entry.0));
                    Seq::lemma_push_to_set_commute(
                        keys_of(self.entry_views()).take(i as int),
                        entry.0,
                    );
                    lemma_pairs_to_map_dom(self.entry_views());
                    assert(keys_of(pre_rm).to_set() =~= keys_of(self.entry_views()).take(i
                        + 1).to_set().difference(desired@));
                }
            }
        }
        proof {
            assert(keys_of(self.entry_views()).take(n as int) =~= keys_of(self.entry_views()));
            lemma_pairs_to_map_dom(self.entry_views());
        }
        ReconcilePlan { adds, removes }
    }

    /// One reconciliation pass's decision step. Without a live widget the
    /// pass is a deferred no-op, not an error; with one, it prescribes
    /// exactly the add and remove calls that make the registered marker set
    /// equal to `desired`.
    pub fn begin_pass(&self, widget_ready: bool, desired: &MarkerSet) -> (r: Option<
        ReconcilePlan,
    >)
        requires
            self.inv(),
            desired.inv(),
        ensures
            r is Some <==> widget_ready,
            r matches Some(p) ==> p.describes(self@, desired@) && p.applies_to(self@),
    {
        if widget_ready {
            let p = self.plan(desired);
            proof {
                assert forall|i: int| 0 <= i < p.add_views().len() implies !self@.dom().contains(
                    #[trigger] p.add_views()[i],
                ) by {
                    assert(p.add_views().to_set().contains(p.add_views()[i]));
                }
            }
            Some(p)
        } else {
            None
        }
    }

    /// Records the outcome of a full pass whose widget calls all succeeded:
    /// `handles[i]` is what the widget returned for `plan.adds[i]`. The table
    /// afterwards is exactly `table_after_pass`: additions recorded first,
    /// removals dropped second, as the host performs them.
    pub fn commit_pass(&mut self, plan: &ReconcilePlan, handles: &Vec<MarkerHandle>)
        requires
            old(self).inv(),
            plan.applies_to(old(self)@),
            handles@.len() == plan.add_views().len(),
        ensures
            final(self).inv(),
            final(self)@ == table_after_pass(old(self)@, *plan, handles@),
    {
        let ghost m0 = self@;
        let na = plan.adds.len();
        for i in 0..na
            invariant
                na == plan.adds@.len(),
                handles@.len() == plan.add_views().len(),
                plan.applies_to(m0),
                self.inv(),
                self@ == insert_all(m0, plan.add_views().take(i as int), handles@.take(i as int)),
        {
            proof {
                lemma_insert_all_dom(
                    m0,
                    plan.add_views().take(i as int),
                    handles@.take(i as int),
                );
                assert(!plan.add_views().take(i as int).to_set().contains(
                    plan.add_views()[i as int],
                )) by {
                    if plan.add_views().take(i as int).to_set().contains(
                        plan.add_views()[i as int],
                    ) {
                        let k = choose|k: int|
                            0 <= k < i && plan.add_views().take(i as int)[k] == plan.add_views()[
                                i as int
                            ];
                        assert(plan.add_views()[k] == plan.add_views()[i as int]);
                    }
                }
            }
            self.record_add(plan.adds[i].clone(), handles[i]);
            proof {
                assert(plan.add_views().take(i + 1).drop_last() =~= plan.add_views().take(
                    i as int,
                ));
                assert(handles@.take(i + 1).drop_last() =~= handles@.take(i as int));
            }
        }
        proof {
            assert(plan.add_views().take(na as int) =~= plan.add_views());
            assert(handles@.take(na as int) =~= handles@);
        }
        let ghost m1 = insert_all(m0, plan.add_views(), handles@);

        let nr = plan.removes.len();
        for i in 0..nr
            invariant
                nr == plan.removes@.len(),
                plan.applies_to(m0),
                self.inv(),
                self@ == m1.remove_keys(
                    keys_of(plan.remove_views()).take(i as int).to_set(),
                ),
                m1 == insert_all(m0, plan.add_views(), handles@),
                handles@.len() == plan.add_views().len(),
        {
            let ghost key = plan.remove_views()[i as int].0;
            proof {
                assert(m0.dom().contains(key));
                lemma_insert_all_dom(m0, plan.add_views(), handles@);
                assert(!keys_of(plan.remove_views()).take(i as int).to_set().contains(key)) by {
                    if keys_of(plan.remove_views()).take(i as int).to_set().contains(key) {
                        let k = choose|k: int|
                            0 <= k < i && keys_of(plan.remove_views()).take(i as int)[k] == key;
                        assert(keys_of(plan.remove_views())[k] == keys_of(plan.remove_views())[
                            i as int
                        ]);
                    }
                }
                assert(self@.dom().contains(key));
            }
            self.record_remove(&plan.removes[i].0);
            proof {
                assert(keys_of(plan.remove_views()).take(i + 1) =~= keys_of(
                    plan.remove_views(),
                ).take(i as int).push(key));
                Seq::lemma_push_to_set_commute(
                    keys_of(plan.remove_views()).take(i as int),
                    key,
                );
                assert(m1.remove_keys(keys_of(plan.remove_views()).take(i as int).to_set()).remove(
                    key,
                ) =~= m1.remove_keys(keys_of(plan.remove_views()).take(i + 1).to_set()));
            }
        }
        proof {
            assert(keys_of(plan.remove_views()).take(nr as int) =~= keys_of(plan.remove_views()));
        }
    }
}

impl View for MarkerReconciler {
    type V = Map<MarkerView, MarkerHandle>;

    /// The handle table as a mathematical map from marker value to handle.
    open spec fn view(&self) -> Map<MarkerView, MarkerHandle> {
        pairs_to_map(self.entry_views())
    }
}

/// Law (idempotence): a pass against a handle table that already matches the
/// desired set prescribes no widget calls at all. In particular, reconciling
/// twice in a row with an unchanged desired set makes the second pass free.
pub proof fn lemma_matching_pass_is_noop(
    plan: ReconcilePlan,
    table: Map<MarkerView, MarkerHandle>,
    desired: Set<MarkerView>,
)
    requires
        plan.describes(table, desired),
        table.dom() == desired,
    ensures
        plan.add_views().len() == 0,
        plan.remove_views().len() == 0,
{
    broadcast use vstd::set::group_set_axioms;

    assert(plan.add_views().to_set() =~= Set::<MarkerView>::empty());
    plan.add_views().unique_seq_to_set();
    assert(keys_of(plan.remove_views()).to_set() =~= Set::<MarkerView>::empty());
    keys_of(plan.remove_views()).unique_seq_to_set();
}

/// Law (idempotence): reconciling twice in a row with the same desired set
/// issues zero widget calls on the second pass — the first pass leaves the
/// handle table matching `desired`, so the second pass's plan is empty.
pub proof fn lemma_second_pass_free(
    first: ReconcilePlan,
    second: ReconcilePlan,
    table: Map<MarkerView, MarkerHandle>,
    desired: Set<MarkerView>,
    handles: Seq<MarkerHandle>,
)
    requires
        first.describes(table, desired),
        handles.len() == first.add_views().len(),
        second.describes(table_after_pass(table, first, handles), desired),
    ensures
        second.add_views().len() == 0,
        second.remove_views().len() == 0,
{
    lemma_pass_consistency(first, table, desired, handles);
    lemma_matching_pass_is_noop(second, table_after_pass(table, first, handles), desired);
}

/// Law (completeness): going from registered set `a` to desired set `b`, the
/// calls issued are exactly one addition per marker of `b - a` and one
/// removal per marker of `a - b`.
pub proof fn lemma_pass_call_counts(
    plan: ReconcilePlan,
    table: Map<MarkerView, MarkerHandle>,
    a: Set<MarkerView>,
    b: Set<MarkerView>,
)
    requires
        plan.describes(table, b),
        table.dom() == a,
    ensures
        plan.add_views().to_set() == b.difference(a),
        plan.add_views().len() == b.difference(a).len(),
        keys_of(plan.remove_views()).to_set() == a.difference(b),
        plan.remove_views().len() == a.difference(b).len(),
{
    plan.add_views().unique_seq_to_set();
    keys_of(plan.remove_views()).unique_seq_to_set();
}

/// Law (completeness, sequential form): after a pass took the registered set
/// to `a`, a following pass for desired set `b` issues exactly one addition
/// per marker of `b - a` and one removal per marker of `a - b`.
pub proof fn lemma_sequential_pass_calls(
    first: ReconcilePlan,
    second: ReconcilePlan,
    table: Map<MarkerView, MarkerHandle>,
    a: Set<MarkerView>,
    b: Set<MarkerView>,
    handles: Seq<MarkerHandle>,
)
    requires
        first.describes(table, a),
        handles.len() == first.add_views().len(),
        second.describes(table_after_pass(table, first, handles), b),
    ensures
        second.add_views().to_set() == b.difference(a),
        second.add_views().len() == b.difference(a).len(),
        keys_of(second.remove_views()).to_set() == a.difference(b),
        second.remove_views().len() == a.difference(b).len(),
{
    lemma_pass_consistency(first, table, a, handles);
    lemma_pass_call_counts(second, table_after_pass(table, first, handles), a, b);
}

/// Law (no churn): a marker desired before and after triggers neither an
/// addition nor a removal.
pub proof fn lemma_no_churn(
    plan: ReconcilePlan,
    table: Map<MarkerView, MarkerHandle>,
    desired: Set<MarkerView>,
    m: MarkerView,
)
    requires
        plan.describes(table, desired),
        table.dom().contains(m),
        desired.contains(m),
    ensures
        !plan.add_views().contains(m),
        !keys_of(plan.remove_views()).contains(m),
{
    if plan.add_views().contains(m) {
        assert(plan.add_views().to_set().contains(m));
    }
    if keys_of(plan.remove_views()).contains(m) {
        assert(keys_of(plan.remove_views()).to_set().contains(m));
    }
}

/// Law (handle table consistency): after a full pass the table's keys are
/// exactly the desired markers; a marker that stayed keeps the handle it
/// already had, a marker just added maps to the handle the widget returned
/// for it, and every removal carried the handle recorded at that marker's
/// addition.
pub proof fn lemma_pass_consistency(
    plan: ReconcilePlan,
    table: Map<MarkerView, MarkerHandle>,
    desired: Set<MarkerView>,
    handles: Seq<MarkerHandle>,
)
    requires
        plan.describes(table, desired),
        handles.len() == plan.add_views().len(),
    ensures
        table_after_pass(table, plan, handles).dom() == desired,
        forall|i: int|
            0 <= i < plan.add_views().len() ==> table_after_pass(table, plan, handles)[
                #[trigger] plan.add_views()[i]
            ] == handles[i],
        forall|m: MarkerView|
            desired.contains(m) && table.dom().contains(m) ==> table_after_pass(
                table,
                plan,
                handles,
            )[m] == table[m],
        forall|i: int|
            0 <= i < plan.remove_views().len() ==> table[
                (#[trigger] plan.remove_views()[i]).0
            ] == plan.remove_views()[i].1,
{
    let rmkeys = keys_of(plan.remove_views()).to_set();
    lemma_insert_all_dom(table, plan.add_views(), handles);
    assert(table_after_pass(table, plan, handles).dom() =~= desired);
    assert forall|i: int| 0 <= i < plan.add_views().len() implies table_after_pass(
        table,
        plan,
        handles,
    )[#[trigger] plan.add_views()[i]] == handles[i] by {
        lemma_insert_all_index(table, plan.add_views(), handles, i);
        assert(plan.add_views().to_set().contains(plan.add_views()[i]));
        assert(!rmkeys.contains(plan.add_views()[i]));
    }
    assert forall|m: MarkerView|
        desired.contains(m) && table.dom().contains(m) implies table_after_pass(
        table,
        plan,
        handles,
    )[m] == table[m] by {
        assert(!plan.add_views().to_set().contains(m));
        lemma_insert_all_untouched(table, plan.add_views(), handles, m);
        assert(!rmkeys.contains(m));
    }
}

} // verus!
