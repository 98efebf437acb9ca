//! The property table of one entity: write-once constants and temporal
//! histories, both by property id.

use crate::errors::GraphError;
use crate::prop::{Prop, PropType};
use crate::tcell::{cell_set, cell_window, logical_times};
use crate::timeindex::TimeIndexEntry;
use crate::tprop::TProp;
use vstd::prelude::*;

verus! {

/// A refused write to a slot that may be set only once.
#[derive(Debug, PartialEq)]
pub struct IllegalSet<A> {
    pub index: usize,
    pub previous_value: A,
    pub new_value: A,
}

/// What a property table holds.
pub struct PropsView {
    /// The constants that have been written, by property id.
    pub constant: Map<usize, Prop>,
    /// The histories that have at least one write, by property id.
    pub temporal: Map<usize, Seq<(TimeIndexEntry, Prop)>>,
}

impl PropsView {
    /// The table without any property.
    pub open spec fn empty() -> PropsView {
        PropsView { constant: Map::empty(), temporal: Map::empty() }
    }

    /// The history of property `id`; empty if it was never written.
    pub open spec fn history(self, id: usize) -> Seq<(TimeIndexEntry, Prop)> {
        if self.temporal.contains_key(id) {
            self.temporal[id]
        } else {
            Seq::empty()
        }
    }

    /// The kind of the temporal property `id`: that of its first write.
    pub open spec fn kind(self, id: usize) -> PropType {
        if self.temporal.contains_key(id) {
            self.temporal[id][0].1.spec_dtype()
        } else {
            PropType::Empty
        }
    }

    /// Whether a temporal write of a value of kind `k` to property `id` is
    /// accepted.
    pub open spec fn accepts(self, id: usize, k: PropType) -> bool {
        self.kind(id) == PropType::Empty || self.kind(id) == k
    }

    /// The table after an accepted write of `prop` to the temporal
    /// property `id` at `t`.
    pub open spec fn with_write(self, t: TimeIndexEntry, id: usize, prop: Prop) -> PropsView {
        PropsView { temporal: self.temporal.insert(id, cell_set(self.history(id), t, prop)), ..self }
    }

    /// The table after the constant `id` is set to `prop`.
    pub open spec fn with_constant(self, id: usize, prop: Prop) -> PropsView {
        PropsView { constant: self.constant.insert(id, prop), ..self }
    }
}

/// The table after the writes `props` at `t`, one after the other, up to
/// the first that is refused; and whether none was refused.
pub open spec fn apply_props(ps: PropsView, t: TimeIndexEntry, props: Seq<(usize, Prop)>) -> (
    PropsView,
    bool,
)
    decreases props.len(),
{
    if props.len() == 0 {
        (ps, true)
    } else if ps.accepts(props[0].0, props[0].1.spec_dtype()) {
        apply_props(ps.with_write(t, props[0].0, props[0].1), t, props.drop_first())
    } else {
        (ps, false)
    }
}

/// The property table of one node or edge.
#[derive(Debug, PartialEq)]
pub struct Props {
    constant_props: Vec<Option<Prop>>,
    temporal_props: Vec<TProp>,
}

impl View for Props {
    type V = PropsView;

    closed spec fn view(&self) -> PropsView {
        PropsView {
            constant: Map::new(
                |id: usize| id < self.constant_props@.len() && self.constant_props@[id as int] is Some,
                |id: usize| self.constant_props@[id as int]->Some_0,
            ),
            temporal: Map::new(
                |id: usize| id < self.temporal_props@.len() && self.temporal_props@[id as int]@.len() > 0,
                |id: usize| self.temporal_props@[id as int]@,
            ),
        }
    }
}

impl Props {
    /// Every history is well formed.
    pub closed spec fn wf(&self) -> bool {
        forall|i: int| 0 <= i < self.temporal_props@.len() ==> (#[trigger] self.temporal_props@[i]).wf()
    }

    /// In a well-formed table every history is non-empty, in strictly
    /// increasing timestamp order and of one kind.
    pub proof fn lemma_histories(&self, id: usize)
        requires
            self.wf(),
            self@.temporal.contains_key(id),
        ensures
            self@.temporal[id].len() > 0,
            crate::tcell::sorted_by_time(self@.temporal[id]),
            forall|i: int|
                0 <= i < self@.temporal[id].len() ==> (#[trigger] self@.temporal[id][i]).1.spec_dtype()
                    == self@.kind(id),
    {
        self.temporal_props@[id as int].lemma_history();
    }

    pub fn new() -> (r: Props)
        ensures
            r.wf(),
            r@ == PropsView::empty(),
    {
        let r = Props { constant_props: Vec::new(), temporal_props: Vec::new() };
        assert(r@.constant =~= Map::empty());
        assert(r@.temporal =~= Map::empty());
        r
    }

    /// Makes room for the temporal property `prop_id`.
    fn reserve_temporal(&mut self, prop_id: usize)
        requires
            old(self).wf(),
        ensures
            final(self).wf(),
            final(self)@ == old(self)@,
            final(self).temporal_props@.len() > prop_id,
            final(self).constant_props@ == old(self).constant_props@,
            forall|i: int|
                0 <= i < old(self).temporal_props@.len() ==> final(self).temporal_props@[i] == old(self).temporal_props@[i],
            forall|i: int|
                old(self).temporal_props@.len() <= i < final(self).temporal_props@.len() ==> final(self).temporal_props@[i] == TProp::Empty,
    {
        while self.temporal_props.len() <= prop_id
            invariant
                self.wf(),
                self@ == old(self)@,
                self.constant_props@ == old(self).constant_props@,
                self.temporal_props@.len() >= old(self).temporal_props@.len(),
                forall|i: int|
                    0 <= i < old(self).temporal_props@.len() ==> self.temporal_props@[i] == old(self).temporal_props@[i],
                forall|i: int|
                    old(self).temporal_props@.len() <= i < self.temporal_props@.len()
                        ==> self.temporal_props@[i] == TProp::Empty,
            decreases prop_id + 1 - self.temporal_props.len(),
        {
            let ghost before = *self;
            self.temporal_props.push(TProp::Empty);
            assert(self@.temporal =~= before@.temporal);
            assert(self@.constant =~= before@.constant);
        }
    }

    /// Makes room for the constant `prop_id`.
    fn reserve_constant(&mut self, prop_id: usize)
        requires
            old(self).wf(),
        ensures
            final(self).wf(),
            final(self)@ == old(self)@,
            final(self).constant_props@.len() > prop_id,
            final(self).temporal_props@ == old(self).temporal_props@,
            forall|i: int|
                0 <= i < old(self).constant_props@.len() ==> final(self).constant_props@[i] == old(self).constant_props@[i],
            forall|i: int|
                old(self).constant_props@.len() <= i < final(self).constant_props@.len() ==> final(self).constant_props@[i] is None,
    {
        while self.constant_props.len() <= prop_id
            invariant
                self.wf(),
                self@ == old(self)@,
                self.temporal_props@ == old(self).temporal_props@,
                self.constant_props@.len() >= old(self).constant_props@.len(),
                forall|i: int|
                    0 <= i < old(self).constant_props@.len() ==> self.constant_props@[i] == old(self).constant_props@[i],
                forall|i: int|
                    old(self).constant_props@.len() <= i < self.constant_props@.len()
                        ==> self.constant_props@[i] is None,
            decreases prop_id + 1 - self.constant_props.len(),
        {
            let ghost before = *self;
            self.constant_props.push(None);
            assert(self@.temporal =~= before@.temporal);
            assert(self@.constant =~= before@.constant);
        }
    }

    /// Records `prop` at `t` in the history of the temporal property
    /// `prop_id`.
    ///
    /// A value whose kind differs from that of the history is refused and
    /// the table stays as it is. A write at a timestamp that the history
    /// already holds is dropped without error.
    pub fn add_prop(&mut self, t: TimeIndexEntry, prop_id: usize, prop: Prop) -> (r: Result<
        (),
        GraphError,
    >)
        requires
            old(self).wf(),
        ensures
            final(self).wf(),
            r is Ok <==> old(self)@.accepts(prop_id, prop.spec_dtype()),
            r is Ok ==> final(self)@ == old(self)@.with_write(t, prop_id, prop),
            r is Err ==> r == Err::<(), GraphError>(GraphError::IncorrectPropertyType) && final(self)@
                == old(self)@,
    {
        self.reserve_temporal(prop_id);
        let ghost mid = *self;
        proof {
            mid.temporal_props@[prop_id as int].lemma_history();
        }
        let r = self.temporal_props[prop_id].set(t, prop);
        proof {
            self.temporal_props@[prop_id as int].lemma_history();
            assert(self@.constant =~= mid@.constant);
            if r is Ok {
                assert(self@.temporal =~= mid@.with_write(t, prop_id, prop).temporal);
            } else {
                assert(self@.temporal =~= mid@.temporal);
            }
        }
        r
    }

    /// Records every value of `props` at `t`, in order, each in the
    /// history of its property. The first value that is refused ends the
    /// call; the values before it stay recorded.
    pub fn add_props(&mut self, t: TimeIndexEntry, props: &Vec<(usize, Prop)>) -> (r: Result<
        (),
        GraphError,
    >)
        requires
            old(self).wf(),
        ensures
            final(self).wf(),
            final(self)@ == apply_props(old(self)@, t, props@).0,
            r is Ok <==> apply_props(old(self)@, t, props@).1,
            r is Err ==> r == Err::<(), GraphError>(GraphError::IncorrectPropertyType),
    {
        let mut i: usize = 0;
        assert(props@.skip(0) =~= props@);
        while i < props.len()
            invariant
                i <= props.len(),
                self.wf(),
                apply_props(old(self)@, t, props@) == apply_props(self@, t, props@.skip(i as int)),
            decreases props.len() - i,
        {
            let ghost rest = props@.skip(i as int);
            assert(rest[0] == props@[i as int]);
            assert(rest.drop_first() =~= props@.skip(i + 1));
            let id = props[i].0;
            let value = props[i].1.clone();
            let r = self.add_prop(t, id, value);
            if r.is_err() {
                return r;
            }
            i += 1;
        }
        Ok(())
    }

    /// Sets the constant `prop_id`, which must not have a value yet.
    ///
    /// If it has one, the write is refused, the table stays as it is, and
    /// the error names the slot and both values.
    pub fn add_constant_prop(&mut self, prop_id: usize, prop: Prop) -> (r: Result<
        (),
        IllegalSet<Option<Prop>>,
    >)
        requires
            old(self).wf(),
        ensures
            final(self).wf(),
            r is Ok <==> !old(self)@.constant.contains_key(prop_id),
            r is Ok ==> final(self)@ == old(self)@.with_constant(prop_id, prop),
            r matches Err(e) ==> e.index == prop_id && e.previous_value == Some(
                old(self)@.constant[prop_id],
            ) && e.new_value == Some(prop) && final(self)@ == old(self)@,
    {
        self.reserve_constant(prop_id);
        let ghost mid = *self;
        match &self.constant_props[prop_id] {
            Some(previous) => {
                let previous_value = Some(previous.clone());
                Err(IllegalSet { index: prop_id, previous_value, new_value: Some(prop) })
            },
            None => {
                self.constant_props[prop_id] = Some(prop);
                proof {
                    assert(self@.constant =~= mid@.with_constant(prop_id, prop).constant);
                    assert(self@.temporal =~= mid@.temporal);
                }
                Ok(())
            },
        }
    }

    /// Sets the constant `prop_id`, whether or not it has a value.
    pub fn update_constant_prop(&mut self, prop_id: usize, prop: Prop) -> (r: Result<
        (),
        GraphError,
    >)
        requires
            old(self).wf(),
        ensures
            final(self).wf(),
            r is Ok,
            final(self)@ == old(self)@.with_constant(prop_id, prop),
    {
        self.reserve_constant(prop_id);
        let ghost mid = *self;
        self.constant_props[prop_id] = Some(prop);
        proof {
            assert(self@.constant =~= mid@.with_constant(prop_id, prop).constant);
            assert(self@.temporal =~= mid@.temporal);
        }
        Ok(())
    }

    /// The history of the temporal property `prop_id` by logical time, in
    /// timestamp order.
    pub fn temporal_props(&self, prop_id: usize) -> (r: Vec<(i64, Prop)>)
        requires
            self.wf(),
        ensures
            r@ == logical_times(self@.history(prop_id)),
    {
        if prop_id < self.temporal_props.len() {
            self.temporal_props[prop_id].iter_t()
        } else {
            let out: Vec<(i64, Prop)> = Vec::new();
            assert(out@ =~= logical_times(self@.history(prop_id)));
            out
        }
    }

    /// The part of the history of the temporal property `prop_id` whose
    /// logical time lies in `[start, end)`, by logical time, in timestamp
    /// order.
    pub fn temporal_props_window(&self, prop_id: usize, start: i64, end: i64) -> (r: Vec<
        (i64, Prop),
    >)
        requires
            self.wf(),
        ensures
            r@ == logical_times(
                cell_window(
                    self@.history(prop_id),
                    TimeIndexEntry::spec_start(start),
                    TimeIndexEntry::spec_start(end),
                ),
            ),
    {
        if prop_id < self.temporal_props.len() {
            self.temporal_props[prop_id].iter_window_t(start..end)
        } else {
            let out: Vec<(i64, Prop)> = Vec::new();
            proof {
                let e = Seq::<(TimeIndexEntry, Prop)>::empty();
                assert(cell_window(
                    e,
                    TimeIndexEntry::spec_start(start),
                    TimeIndexEntry::spec_start(end),
                ) =~= e);
                assert(out@ =~= logical_times(e));
            }
            out
        }
    }

    /// The value of the constant `prop_id`.
    pub fn const_prop(&self, prop_id: usize) -> (r: Option<&Prop>)
        ensures
            match r {
                Some(p) => self@.constant.contains_key(prop_id) && self@.constant[prop_id] == *p,
                None => !self@.constant.contains_key(prop_id),
            },
    {
        if prop_id < self.constant_props.len() {
            self.constant_props[prop_id].as_ref()
        } else {
            None
        }
    }

    /// The temporal property `prop_id`, if it has been written.
    pub fn temporal_prop(&self, prop_id: usize) -> (r: Option<&TProp>)
        requires
            self.wf(),
        ensures
            match r {
                Some(p) => self@.temporal.contains_key(prop_id) && p@ == self@.temporal[prop_id]
                    && p.wf(),
                None => !self@.temporal.contains_key(prop_id),
            },
    {
        if prop_id < self.temporal_props.len() {
            proof {
                self.temporal_props@[prop_id as int].lemma_history();
            }
            if self.temporal_props[prop_id].len() > 0 {
                Some(&self.temporal_props[prop_id])
            } else {
                None
            }
        } else {
            None
        }
    }

    /// The ids of the constants that have a value, in ascending order.
    pub fn const_prop_ids(&self) -> (r: Vec<usize>)
        ensures
            forall|i: int, j: int| 0 <= i < j < r@.len() ==> r@[i] < r@[j],
            forall|id: usize| r@.contains(id) <==> self@.constant.contains_key(id),
    {
        let mut out: Vec<usize> = Vec::new();
        let mut i: usize = 0;
        while i < self.constant_props.len()
            invariant
                i <= self.constant_props.len(),
                forall|a: int, b: int| 0 <= a < b < out@.len() ==> out@[a] < out@[b],
                forall|a: int| 0 <= a < out@.len() ==> out@[a] < i,
                forall|id: usize|
                    out@.contains(id) <==> (id < i && self@.constant.contains_key(id)),
            decreases self.constant_props.len() - i,
        {
            let ghost before = out@;
            if self.constant_props[i].is_some() {
                out.push(i);
                assert forall|id: usize|
                    out@.contains(id) <==> (id < i + 1 && self@.constant.contains_key(id)) by {
                    if out@.contains(id) {
                        let k = choose|k: int| 0 <= k < out@.len() && out@[k] == id;
                        if k < before.len() {
                            assert(before[k] == id);
                            assert(before.contains(id));
                        }
                    }
                    if id < i + 1 && self@.constant.contains_key(id) {
                        if id < i {
                            assert(before.contains(id));
                            let k = choose|k: int| 0 <= k < before.len() && before[k] == id;
                            assert(out@[k] == id);
                        } else {
                            assert(out@[before.len() as int] == id);
                        }
                    }
                }
            }
            i += 1;
        }
        out
    }

    /// The ids of the temporal properties that have been written, in
    /// ascending order.
    pub fn temporal_prop_ids(&self) -> (r: Vec<usize>)
        ensures
            forall|i: int, j: int| 0 <= i < j < r@.len() ==> r@[i] < r@[j],
            forall|id: usize| r@.contains(id) <==> self@.temporal.contains_key(id),
    {
        let mut out: Vec<usize> = Vec::new();
        let mut i: usize = 0;
        while i < self.temporal_props.len()
            invariant
                i <= self.temporal_props.len(),
                forall|a: int, b: int| 0 <= a < b < out@.len() ==> out@[a] < out@[b],
                forall|a: int| 0 <= a < out@.len() ==> out@[a] < i,
                forall|id: usize|
                    out@.contains(id) <==> (id < i && self@.temporal.contains_key(id)),
            decreases self.temporal_props.len() - i,
        {
            let ghost before = out@;
            if self.temporal_props[i].len() > 0 {
                out.push(i);
                assert forall|id: usize|
                    out@.contains(id) <==> (id < i + 1 && self@.temporal.contains_key(id)) by {
                    if out@.contains(id) {
                        let k = choose|k: int| 0 <= k < out@.len() && out@[k] == id;
                        if k < before.len() {
                            assert(before[k] == id);
                            assert(before.contains(id));
                        }
                    }
                    if id < i + 1 && self@.temporal.contains_key(id) {
                        if id < i {
                            assert(before.contains(id));
                            let k = choose|k: int| 0 <= k < before.len() && before[k] == id;
                            assert(out@[k] == id);
                        } else {
                            assert(out@[before.len() as int] == id);
                        }
                    }
                }
            }
            i += 1;
        }
        out
    }
}

} // verus!
