//! The temporal property: the versioned cell of whichever kind the first
//! write gave it.

use crate::errors::GraphError;
use crate::prop::{
    DTime, DocumentInput, Float32, Float64, GraphHandle, NDTime, PersistentGraphHandle, Prop,
    PropType, PropValue,
};
use crate::seq_lemmas::lemma_filter_map_values;
use crate::tcell::{
    after_time, at_time, before_time, cell_at, cell_last_before, cell_set, cell_window, has_time,
    in_window, lemma_window_of_sorted, logical_times, sorted_by_time, up_to, TCell,
};
use crate::timeindex::TimeIndexEntry;
use std::collections::HashMap;
use std::ops::Range;
use std::sync::Arc;
use vstd::prelude::*;

verus! {

/// Turns a stored entry into the entry that readers see.
pub open spec fn wrap_entry<A: PropValue>() -> spec_fn((TimeIndexEntry, A)) -> (
    TimeIndexEntry,
    Prop,
) {
    |e: (TimeIndexEntry, A)| (e.0, e.1.wrap())
}

/// A stored history as readers see it: every value held in a `Prop`.
pub open spec fn wrapped<A: PropValue>(s: Seq<(TimeIndexEntry, A)>) -> Seq<(TimeIndexEntry, Prop)> {
    s.map_values(wrap_entry::<A>())
}

/// Wrapping keeps the timestamps, so it keeps their order.
pub proof fn lemma_wrapped_sorted<A: PropValue>(s: Seq<(TimeIndexEntry, A)>)
    requires
        sorted_by_time(s),
    ensures
        sorted_by_time(wrapped(s)),
{
    let w = wrapped(s);
    assert forall|i: int, j: int| 0 <= i < j < w.len() implies (#[trigger] w[i]).0.spec_lt(
        (#[trigger] w[j]).0,
    ) by {
        assert(s[i].0.spec_lt(s[j].0));
    }
}

/// Wrapping commutes with a write.
pub proof fn lemma_wrapped_set<A: PropValue>(s: Seq<(TimeIndexEntry, A)>, t: TimeIndexEntry, v: A)
    ensures
        wrapped(cell_set(s, t, v)) == cell_set(wrapped(s), t, v.wrap()),
{
    let w = wrapped(s);
    if has_time(s, t) {
        let i = choose|i: int| 0 <= i < s.len() && (#[trigger] s[i]).0 == t;
        assert(w[i].0 == t);
    }
    if has_time(w, t) {
        let i = choose|i: int| 0 <= i < w.len() && (#[trigger] w[i]).0 == t;
        assert(s[i].0 == t);
    }
    if !has_time(s, t) {
        lemma_filter_map_values(
            s,
            wrap_entry::<A>(),
            before_time::<Prop>(t),
            before_time::<A>(t),
        );
        lemma_filter_map_values(s, wrap_entry::<A>(), after_time::<Prop>(t), after_time::<A>(t));
        assert(wrapped(s.filter(before_time(t)) + seq![(t, v)] + s.filter(after_time(t)))
            =~= wrapped(s.filter(before_time(t))) + seq![(t, v.wrap())] + wrapped(
            s.filter(after_time(t)),
        ));
    }
}

/// Wrapping commutes with an exact look-up.
pub proof fn lemma_wrapped_at<A: PropValue>(s: Seq<(TimeIndexEntry, A)>, t: TimeIndexEntry)
    ensures
        cell_at(wrapped(s), t) == match cell_at(s, t) {
            Some(v) => Some(v.wrap()),
            None => None,
        },
{
    lemma_filter_map_values(s, wrap_entry::<A>(), at_time::<Prop>(t), at_time::<A>(t));
}

/// Wrapping commutes with a look-up of the latest value up to a time.
pub proof fn lemma_wrapped_last_before<A: PropValue>(s: Seq<(TimeIndexEntry, A)>, t: i64)
    ensures
        cell_last_before(wrapped(s), t) == match cell_last_before(s, t) {
            Some(e) => Some((e.0, e.1.wrap())),
            None => None,
        },
{
    lemma_filter_map_values(s, wrap_entry::<A>(), up_to::<Prop>(t), up_to::<A>(t));
}

/// Wrapping commutes with a window.
pub proof fn lemma_wrapped_window<A: PropValue>(
    s: Seq<(TimeIndexEntry, A)>,
    start: TimeIndexEntry,
    end: TimeIndexEntry,
)
    ensures
        cell_window(wrapped(s), start, end) == wrapped(cell_window(s, start, end)),
{
    lemma_filter_map_values(
        s,
        wrap_entry::<A>(),
        in_window::<Prop>(start, end),
        in_window::<A>(start, end),
    );
}

/// Copies of the entries at positions `lo..hi`, each value in a `Prop`.
fn collect_range<A: PropValue>(cell: &TCell<A>, lo: usize, hi: usize) -> (r: Vec<
    (TimeIndexEntry, Prop),
>)
    requires
        lo <= hi <= cell@.len(),
    ensures
        r@ == wrapped(cell@.subrange(lo as int, hi as int)),
{
    let mut out: Vec<(TimeIndexEntry, Prop)> = Vec::new();
    let mut i: usize = lo;
    assert(out@ =~= wrapped(cell@.subrange(lo as int, i as int)));
    while i < hi
        invariant
            lo <= i <= hi <= cell@.len(),
            out@ == wrapped(cell@.subrange(lo as int, i as int)),
        decreases hi - i,
    {
        let (t, v) = cell.entry(i);
        out.push((t, v.to_prop()));
        assert(out@ =~= wrapped(cell@.subrange(lo as int, i + 1)));
        i += 1;
    }
    out
}

/// Like `collect_range`, with logical times in place of timestamps.
fn collect_range_t<A: PropValue>(cell: &TCell<A>, lo: usize, hi: usize) -> (r: Vec<(i64, Prop)>)
    requires
        lo <= hi <= cell@.len(),
    ensures
        r@ == logical_times(wrapped(cell@.subrange(lo as int, hi as int))),
{
    let mut out: Vec<(i64, Prop)> = Vec::new();
    let mut i: usize = lo;
    assert(out@ =~= logical_times(wrapped(cell@.subrange(lo as int, i as int))));
    while i < hi
        invariant
            lo <= i <= hi <= cell@.len(),
            out@ == logical_times(wrapped(cell@.subrange(lo as int, i as int))),
        decreases hi - i,
    {
        let (t, v) = cell.entry(i);
        out.push((t.0, v.to_prop()));
        assert(out@ =~= logical_times(wrapped(cell@.subrange(lo as int, i + 1))));
        i += 1;
    }
    out
}

fn cell_iter<A: PropValue>(cell: &TCell<A>) -> (r: Vec<(TimeIndexEntry, Prop)>)
    ensures
        r@ == wrapped(cell@),
{
    assert(cell@.subrange(0, cell@.len() as int) =~= cell@);
    collect_range(cell, 0, cell.len())
}

fn cell_iter_t<A: PropValue>(cell: &TCell<A>) -> (r: Vec<(i64, Prop)>)
    ensures
        r@ == logical_times(wrapped(cell@)),
{
    assert(cell@.subrange(0, cell@.len() as int) =~= cell@);
    collect_range_t(cell, 0, cell.len())
}

fn cell_iter_window<A: PropValue>(cell: &TCell<A>, w: Range<TimeIndexEntry>) -> (r: Vec<
    (TimeIndexEntry, Prop),
>)
    requires
        cell.wf(),
    ensures
        r@ == cell_window(wrapped(cell@), w.start, w.end),
{
    let (lo, hi) = cell.window_bounds(&w.start, &w.end);
    proof {
        lemma_wrapped_window(cell@, w.start, w.end);
    }
    collect_range(cell, lo, hi)
}

fn cell_iter_window_t<A: PropValue>(cell: &TCell<A>, w: Range<i64>) -> (r: Vec<(i64, Prop)>)
    requires
        cell.wf(),
    ensures
        r@ == logical_times(
            cell_window(
                wrapped(cell@),
                TimeIndexEntry::spec_start(w.start),
                TimeIndexEntry::spec_start(w.end),
            ),
        ),
{
    let start = TimeIndexEntry::start(w.start);
    let end = TimeIndexEntry::start(w.end);
    let (lo, hi) = cell.window_bounds(&start, &end);
    proof {
        lemma_wrapped_window(cell@, start, end);
    }
    collect_range_t(cell, lo, hi)
}

fn cell_value_at<A: PropValue>(cell: &TCell<A>, ti: &TimeIndexEntry) -> (r: Option<Prop>)
    requires
        cell.wf(),
    ensures
        r == cell_at(wrapped(cell@), *ti),
{
    proof {
        lemma_wrapped_at(cell@, *ti);
    }
    match cell.at(ti) {
        Some(v) => Some(v.to_prop()),
        None => None,
    }
}

fn cell_value_before<A: PropValue>(cell: &TCell<A>, t: i64) -> (r: Option<(TimeIndexEntry, Prop)>)
    requires
        cell.wf(),
    ensures
        r == cell_last_before(wrapped(cell@), t),
{
    proof {
        lemma_wrapped_last_before(cell@, t);
    }
    match cell.last_before(t) {
        Some((ti, v)) => Some((ti, v.to_prop())),
        None => None,
    }
}

fn cell_put<A: PropValue>(cell: &mut TCell<A>, t: TimeIndexEntry, value: A)
    requires
        old(cell).wf(),
    ensures
        final(cell).wf(),
        final(cell)@.len() > 0,
        wrapped(final(cell)@) == cell_set(wrapped(old(cell)@), t, value.wrap()),
{
    proof {
        lemma_wrapped_set(cell@, t, value);
    }
    cell.set(t, value);
}

/// The history of one property. Until the first write it is `Empty`; the
/// first write fixes the kind, and with it the variant, for good.
#[derive(Debug, PartialEq)]
pub enum TProp {
    Empty,
    Str(TCell<String>),
    U8(TCell<u8>),
    U16(TCell<u16>),
    I32(TCell<i32>),
    I64(TCell<i64>),
    U32(TCell<u32>),
    U64(TCell<u64>),
    F32(TCell<Float32>),
    F64(TCell<Float64>),
    Bool(TCell<bool>),
    DTime(TCell<DTime>),
    NDTime(TCell<NDTime>),
    Graph(TCell<GraphHandle>),
    PersistentGraph(TCell<PersistentGraphHandle>),
    Document(TCell<DocumentInput>),
    List(TCell<Arc<Vec<Prop>>>),
    Dict(TCell<Arc<HashMap<String, Prop>>>),
}

impl View for TProp {
    type V = Seq<(TimeIndexEntry, Prop)>;

    /// The history: every write that was kept, in timestamp order.
    open spec fn view(&self) -> Seq<(TimeIndexEntry, Prop)> {
        match self {
            TProp::Empty => Seq::empty(),
            TProp::Str(cell) => wrapped(cell@),
            TProp::U8(cell) => wrapped(cell@),
            TProp::U16(cell) => wrapped(cell@),
            TProp::I32(cell) => wrapped(cell@),
            TProp::I64(cell) => wrapped(cell@),
            TProp::U32(cell) => wrapped(cell@),
            TProp::U64(cell) => wrapped(cell@),
            TProp::F32(cell) => wrapped(cell@),
            TProp::F64(cell) => wrapped(cell@),
            TProp::Bool(cell) => wrapped(cell@),
            TProp::DTime(cell) => wrapped(cell@),
            TProp::NDTime(cell) => wrapped(cell@),
            TProp::Graph(cell) => wrapped(cell@),
            TProp::PersistentGraph(cell) => wrapped(cell@),
            TProp::Document(cell) => wrapped(cell@),
            TProp::List(cell) => wrapped(cell@),
            TProp::Dict(cell) => wrapped(cell@),
        }
    }
}

impl Default for TProp {
    fn default() -> (r: TProp)
        ensures
            r == TProp::Empty,
    {
        TProp::Empty
    }
}

impl TProp {
    /// The cell inside is in timestamp order and holds at least one write.
    pub open spec fn wf(&self) -> bool {
        match self {
            TProp::Empty => true,
            TProp::Str(cell) => cell.wf() && cell@.len() > 0,
            TProp::U8(cell) => cell.wf() && cell@.len() > 0,
            TProp::U16(cell) => cell.wf() && cell@.len() > 0,
            TProp::I32(cell) => cell.wf() && cell@.len() > 0,
            TProp::I64(cell) => cell.wf() && cell@.len() > 0,
            TProp::U32(cell) => cell.wf() && cell@.len() > 0,
            TProp::U64(cell) => cell.wf() && cell@.len() > 0,
            TProp::F32(cell) => cell.wf() && cell@.len() > 0,
            TProp::F64(cell) => cell.wf() && cell@.len() > 0,
            TProp::Bool(cell) => cell.wf() && cell@.len() > 0,
            TProp::DTime(cell) => cell.wf() && cell@.len() > 0,
            TProp::NDTime(cell) => cell.wf() && cell@.len() > 0,
            TProp::Graph(cell) => cell.wf() && cell@.len() > 0,
            TProp::PersistentGraph(cell) => cell.wf() && cell@.len() > 0,
            TProp::Document(cell) => cell.wf() && cell@.len() > 0,
            TProp::List(cell) => cell.wf() && cell@.len() > 0,
            TProp::Dict(cell) => cell.wf() && cell@.len() > 0,
        }
    }

    /// The kind that the first write fixed; `PropType::Empty` before it.
    pub open spec fn spec_dtype(&self) -> PropType {
        match self {
            TProp::Empty => PropType::Empty,
            TProp::Str(_) => PropType::Str,
            TProp::U8(_) => PropType::U8,
            TProp::U16(_) => PropType::U16,
            TProp::I32(_) => PropType::I32,
            TProp::I64(_) => PropType::I64,
            TProp::U32(_) => PropType::U32,
            TProp::U64(_) => PropType::U64,
            TProp::F32(_) => PropType::F32,
            TProp::F64(_) => PropType::F64,
            TProp::Bool(_) => PropType::Bool,
            TProp::DTime(_) => PropType::DTime,
            TProp::NDTime(_) => PropType::NDTime,
            TProp::Graph(_) => PropType::Graph,
            TProp::PersistentGraph(_) => PropType::PersistentGraph,
            TProp::Document(_) => PropType::Document,
            TProp::List(_) => PropType::List,
            TProp::Dict(_) => PropType::Dict,
        }
    }

    /// The history that one write of `prop` at `t` gives.
    pub open spec fn single(t: TimeIndexEntry, prop: Prop) -> Seq<(TimeIndexEntry, Prop)> {
        seq![(t, prop)]
    }

    /// Whether a write of a value of kind `k` is accepted.
    pub open spec fn accepts(&self, k: PropType) -> bool {
        self.spec_dtype() == PropType::Empty || self.spec_dtype() == k
    }

    /// The history is in strictly increasing timestamp order, every value
    /// in it has the kind of the property, and it is empty exactly as long
    /// as the property has no kind.
    pub proof fn lemma_history(&self)
        requires
            self.wf(),
        ensures
            sorted_by_time(self@),
            forall|i: int| 0 <= i < self@.len() ==> (#[trigger] self@[i]).1.spec_dtype() == self.spec_dtype(),
            self@.len() == 0 <==> self.spec_dtype() == PropType::Empty,
    {
        match self {
            TProp::Empty => {},
            TProp::Str(cell) => { lemma_wrapped_sorted(cell@); },
            TProp::U8(cell) => { lemma_wrapped_sorted(cell@); },
            TProp::U16(cell) => { lemma_wrapped_sorted(cell@); },
            TProp::I32(cell) => { lemma_wrapped_sorted(cell@); },
            TProp::I64(cell) => { lemma_wrapped_sorted(cell@); },
            TProp::U32(cell) => { lemma_wrapped_sorted(cell@); },
            TProp::U64(cell) => { lemma_wrapped_sorted(cell@); },
            TProp::F32(cell) => { lemma_wrapped_sorted(cell@); },
            TProp::F64(cell) => { lemma_wrapped_sorted(cell@); },
            TProp::Bool(cell) => { lemma_wrapped_sorted(cell@); },
            TProp::DTime(cell) => { lemma_wrapped_sorted(cell@); },
            TProp::NDTime(cell) => { lemma_wrapped_sorted(cell@); },
            TProp::Graph(cell) => { lemma_wrapped_sorted(cell@); },
            TProp::PersistentGraph(cell) => { lemma_wrapped_sorted(cell@); },
            TProp::Document(cell) => { lemma_wrapped_sorted(cell@); },
            TProp::List(cell) => { lemma_wrapped_sorted(cell@); },
            TProp::Dict(cell) => { lemma_wrapped_sorted(cell@); },
        }
    }

    pub fn dtype(&self) -> (k: PropType)
        ensures
            k == self.spec_dtype(),
    {
        match self {
            TProp::Empty => PropType::Empty,
            TProp::Str(_) => PropType::Str,
            TProp::U8(_) => PropType::U8,
            TProp::U16(_) => PropType::U16,
            TProp::I32(_) => PropType::I32,
            TProp::I64(_) => PropType::I64,
            TProp::U32(_) => PropType::U32,
            TProp::U64(_) => PropType::U64,
            TProp::F32(_) => PropType::F32,
            TProp::F64(_) => PropType::F64,
            TProp::Bool(_) => PropType::Bool,
            TProp::DTime(_) => PropType::DTime,
            TProp::NDTime(_) => PropType::NDTime,
            TProp::Graph(_) => PropType::Graph,
            TProp::PersistentGraph(_) => PropType::PersistentGraph,
            TProp::Document(_) => PropType::Document,
            TProp::List(_) => PropType::List,
            TProp::Dict(_) => PropType::Dict,
        }
    }

    /// The property after a first write of `prop` at `t`.
    pub fn from(t: TimeIndexEntry, prop: Prop) -> (r: TProp)
        ensures
            r.wf(),
            r@ == TProp::single(t, prop),
            r.spec_dtype() == prop.spec_dtype(),
    {
        match prop {
            Prop::Str(value) => {
                let cell = TCell::new(t, value);
                assert(wrapped(cell@) =~= TProp::single(t, Prop::Str(value)));
                TProp::Str(cell)
            },
            Prop::U8(value) => {
                let cell = TCell::new(t, value);
                assert(wrapped(cell@) =~= TProp::single(t, Prop::U8(value)));
                TProp::U8(cell)
            },
            Prop::U16(value) => {
                let cell = TCell::new(t, value);
                assert(wrapped(cell@) =~= TProp::single(t, Prop::U16(value)));
                TProp::U16(cell)
            },
            Prop::I32(value) => {
                let cell = TCell::new(t, value);
                assert(wrapped(cell@) =~= TProp::single(t, Prop::I32(value)));
                TProp::I32(cell)
            },
            Prop::I64(value) => {
                let cell = TCell::new(t, value);
                assert(wrapped(cell@) =~= TProp::single(t, Prop::I64(value)));
                TProp::I64(cell)
            },
            Prop::U32(value) => {
                let cell = TCell::new(t, value);
                assert(wrapped(cell@) =~= TProp::single(t, Prop::U32(value)));
                TProp::U32(cell)
            },
            Prop::U64(value) => {
                let cell = TCell::new(t, value);
                assert(wrapped(cell@) =~= TProp::single(t, Prop::U64(value)));
                TProp::U64(cell)
            },
            Prop::F32(value) => {
                let cell = TCell::new(t, value);
                assert(wrapped(cell@) =~= TProp::single(t, Prop::F32(value)));
                TProp::F32(cell)
            },
            Prop::F64(value) => {
                let cell = TCell::new(t, value);
                assert(wrapped(cell@) =~= TProp::single(t, Prop::F64(value)));
                TProp::F64(cell)
            },
            Prop::Bool(value) => {
                let cell = TCell::new(t, value);
                assert(wrapped(cell@) =~= TProp::single(t, Prop::Bool(value)));
                TProp::Bool(cell)
            },
            Prop::DTime(value) => {
                let cell = TCell::new(t, value);
                assert(wrapped(cell@) =~= TProp::single(t, Prop::DTime(value)));
                TProp::DTime(cell)
            },
            Prop::NDTime(value) => {
                let cell = TCell::new(t, value);
                assert(wrapped(cell@) =~= TProp::single(t, Prop::NDTime(value)));
                TProp::NDTime(cell)
            },
            Prop::Graph(value) => {
                let cell = TCell::new(t, value);
                assert(wrapped(cell@) =~= TProp::single(t, Prop::Graph(value)));
                TProp::Graph(cell)
            },
            Prop::PersistentGraph(value) => {
                let cell = TCell::new(t, value);
                assert(wrapped(cell@) =~= TProp::single(t, Prop::PersistentGraph(value)));
                TProp::PersistentGraph(cell)
            },
            Prop::Document(value) => {
                let cell = TCell::new(t, value);
                assert(wrapped(cell@) =~= TProp::single(t, Prop::Document(value)));
                TProp::Document(cell)
            },
            Prop::List(value) => {
                let cell = TCell::new(t, value);
                assert(wrapped(cell@) =~= TProp::single(t, Prop::List(value)));
                TProp::List(cell)
            },
            Prop::Dict(value) => {
                let cell = TCell::new(t, value);
                assert(wrapped(cell@) =~= TProp::single(t, Prop::Dict(value)));
                TProp::Dict(cell)
            },
        }
    }

    /// Records `prop` at `t`.
    ///
    /// A value of the wrong kind is refused and nothing changes. Otherwise
    /// the write is kept unless the history already holds a value at
    /// exactly `t`, which then stays.
    pub fn set(&mut self, t: TimeIndexEntry, prop: Prop) -> (r: Result<(), GraphError>)
        requires
            old(self).wf(),
        ensures
            final(self).wf(),
            r is Ok <==> old(self).accepts(prop.spec_dtype()),
            r is Ok ==> final(self)@ == cell_set(old(self)@, t, prop) && final(self).spec_dtype()
                == prop.spec_dtype(),
            r is Err ==> r == Err::<(), GraphError>(GraphError::IncorrectPropertyType) && *final(self)
                == *old(self),
    {
        match self {
            TProp::Empty => {
                proof {
                    let e = Seq::<(TimeIndexEntry, Prop)>::empty();
                    assert(!has_time(e, t));
                    assert(e.filter(before_time(t)) =~= e);
                    assert(e.filter(after_time(t)) =~= e);
                    assert(cell_set(e, t, prop) =~= TProp::single(t, prop));
                }
                *self = TProp::from(t, prop);
                Ok(())
            },
            TProp::Str(cell) => match prop {
                Prop::Str(a) => {
                    cell_put(cell, t, a);
                    Ok(())
                },
                _ => Err(GraphError::IncorrectPropertyType),
            },
            TProp::U8(cell) => match prop {
                Prop::U8(a) => {
                    cell_put(cell, t, a);
                    Ok(())
                },
                _ => Err(GraphError::IncorrectPropertyType),
            },
            TProp::U16(cell) => match prop {
                Prop::U16(a) => {
                    cell_put(cell, t, a);
                    Ok(())
                },
                _ => Err(GraphError::IncorrectPropertyType),
            },
            TProp::I32(cell) => match prop {
                Prop::I32(a) => {
                    cell_put(cell, t, a);
                    Ok(())
                },
                _ => Err(GraphError::IncorrectPropertyType),
            },
            TProp::I64(cell) => match prop {
                Prop::I64(a) => {
                    cell_put(cell, t, a);
                    Ok(())
                },
                _ => Err(GraphError::IncorrectPropertyType),
            },
            TProp::U32(cell) => match prop {
                Prop::U32(a) => {
                    cell_put(cell, t, a);
                    Ok(())
                },
                _ => Err(GraphError::IncorrectPropertyType),
            },
            TProp::U64(cell) => match prop {
                Prop::U64(a) => {
                    cell_put(cell, t, a);
                    Ok(())
                },
                _ => Err(GraphError::IncorrectPropertyType),
            },
            TProp::F32(cell) => match prop {
                Prop::F32(a) => {
                    cell_put(cell, t, a);
                    Ok(())
                },
                _ => Err(GraphError::IncorrectPropertyType),
            },
            TProp::F64(cell) => match prop {
                Prop::F64(a) => {
                    cell_put(cell, t, a);
                    Ok(())
                },
                _ => Err(GraphError::IncorrectPropertyType),
            },
            TProp::Bool(cell) => match prop {
                Prop::Bool(a) => {
                    cell_put(cell, t, a);
                    Ok(())
                },
                _ => Err(GraphError::IncorrectPropertyType),
            },
            TProp::DTime(cell) => match prop {
                Prop::DTime(a) => {
                    cell_put(cell, t, a);
                    Ok(())
                },
                _ => Err(GraphError::IncorrectPropertyType),
            },
            TProp::NDTime(cell) => match prop {
                Prop::NDTime(a) => {
                    cell_put(cell, t, a);
                    Ok(())
                },
                _ => Err(GraphError::IncorrectPropertyType),
            },
            TProp::Graph(cell) => match prop {
                Prop::Graph(a) => {
                    cell_put(cell, t, a);
                    Ok(())
                },
                _ => Err(GraphError::IncorrectPropertyType),
            },
            TProp::PersistentGraph(cell) => match prop {
                Prop::PersistentGraph(a) => {
                    cell_put(cell, t, a);
                    Ok(())
                },
                _ => Err(GraphError::IncorrectPropertyType),
            },
            TProp::Document(cell) => match prop {
                Prop::Document(a) => {
                    cell_put(cell, t, a);
                    Ok(())
                },
                _ => Err(GraphError::IncorrectPropertyType),
            },
            TProp::List(cell) => match prop {
                Prop::List(a) => {
                    cell_put(cell, t, a);
                    Ok(())
                },
                _ => Err(GraphError::IncorrectPropertyType),
            },
            TProp::Dict(cell) => match prop {
                Prop::Dict(a) => {
                    cell_put(cell, t, a);
                    Ok(())
                },
                _ => Err(GraphError::IncorrectPropertyType),
            },
        }
    }

    /// Every write that was kept, in increasing timestamp order.
    pub fn iter_inner(&self) -> (r: Vec<(TimeIndexEntry, Prop)>)
        requires
            self.wf(),
        ensures
            r@ == self@,
            sorted_by_time(r@),
    {
        proof {
            self.lemma_history();
        }
        match self {
            TProp::Empty => Vec::new(),
            TProp::Str(cell) => cell_iter(cell),
            TProp::U8(cell) => cell_iter(cell),
            TProp::U16(cell) => cell_iter(cell),
            TProp::I32(cell) => cell_iter(cell),
            TProp::I64(cell) => cell_iter(cell),
            TProp::U32(cell) => cell_iter(cell),
            TProp::U64(cell) => cell_iter(cell),
            TProp::F32(cell) => cell_iter(cell),
            TProp::F64(cell) => cell_iter(cell),
            TProp::Bool(cell) => cell_iter(cell),
            TProp::DTime(cell) => cell_iter(cell),
            TProp::NDTime(cell) => cell_iter(cell),
            TProp::Graph(cell) => cell_iter(cell),
            TProp::PersistentGraph(cell) => cell_iter(cell),
            TProp::Document(cell) => cell_iter(cell),
            TProp::List(cell) => cell_iter(cell),
            TProp::Dict(cell) => cell_iter(cell),
        }
    }

    /// Every write that was kept, in increasing timestamp order.
    pub fn iter(&self) -> (r: Vec<(TimeIndexEntry, Prop)>)
        requires
            self.wf(),
        ensures
            r@ == self@,
            sorted_by_time(r@),
    {
        self.iter_inner()
    }

    /// Every write that was kept, by logical time, in increasing timestamp
    /// order.
    pub fn iter_t(&self) -> (r: Vec<(i64, Prop)>)
        ensures
            r@ == logical_times(self@),
    {
        match self {
            TProp::Empty => {
                let out: Vec<(i64, Prop)> = Vec::new();
                assert(out@ =~= logical_times(self@));
                out
            },
            TProp::Str(cell) => cell_iter_t(cell),
            TProp::U8(cell) => cell_iter_t(cell),
            TProp::U16(cell) => cell_iter_t(cell),
            TProp::I32(cell) => cell_iter_t(cell),
            TProp::I64(cell) => cell_iter_t(cell),
            TProp::U32(cell) => cell_iter_t(cell),
            TProp::U64(cell) => cell_iter_t(cell),
            TProp::F32(cell) => cell_iter_t(cell),
            TProp::F64(cell) => cell_iter_t(cell),
            TProp::Bool(cell) => cell_iter_t(cell),
            TProp::DTime(cell) => cell_iter_t(cell),
            TProp::NDTime(cell) => cell_iter_t(cell),
            TProp::Graph(cell) => cell_iter_t(cell),
            TProp::PersistentGraph(cell) => cell_iter_t(cell),
            TProp::Document(cell) => cell_iter_t(cell),
            TProp::List(cell) => cell_iter_t(cell),
            TProp::Dict(cell) => cell_iter_t(cell),
        }
    }

    /// The writes in the window `[w.start, w.end)`, in increasing timestamp
    /// order.
    pub fn iter_window_inner(&self, w: Range<TimeIndexEntry>) -> (r: Vec<(TimeIndexEntry, Prop)>)
        requires
            self.wf(),
        ensures
            r@ == cell_window(self@, w.start, w.end),
            sorted_by_time(r@),
    {
        proof {
            self.lemma_history();
            lemma_window_of_sorted(self@, w.start, w.end);
        }
        match self {
            TProp::Empty => {
                let out: Vec<(TimeIndexEntry, Prop)> = Vec::new();
                assert(self@.filter(in_window(w.start, w.end)) =~= out@);
                out
            },
            TProp::Str(cell) => cell_iter_window(cell, w),
            TProp::U8(cell) => cell_iter_window(cell, w),
            TProp::U16(cell) => cell_iter_window(cell, w),
            TProp::I32(cell) => cell_iter_window(cell, w),
            TProp::I64(cell) => cell_iter_window(cell, w),
            TProp::U32(cell) => cell_iter_window(cell, w),
            TProp::U64(cell) => cell_iter_window(cell, w),
            TProp::F32(cell) => cell_iter_window(cell, w),
            TProp::F64(cell) => cell_iter_window(cell, w),
            TProp::Bool(cell) => cell_iter_window(cell, w),
            TProp::DTime(cell) => cell_iter_window(cell, w),
            TProp::NDTime(cell) => cell_iter_window(cell, w),
            TProp::Graph(cell) => cell_iter_window(cell, w),
            TProp::PersistentGraph(cell) => cell_iter_window(cell, w),
            TProp::Document(cell) => cell_iter_window(cell, w),
            TProp::List(cell) => cell_iter_window(cell, w),
            TProp::Dict(cell) => cell_iter_window(cell, w),
        }
    }

    /// The writes in the window `[w.start, w.end)`, in increasing timestamp
    /// order.
    pub fn iter_window(&self, w: Range<TimeIndexEntry>) -> (r: Vec<(TimeIndexEntry, Prop)>)
        requires
            self.wf(),
        ensures
            r@ == cell_window(self@, w.start, w.end),
            sorted_by_time(r@),
    {
        self.iter_window_inner(w)
    }

    /// The writes whose logical time lies in `[w.start, w.end)`, by logical
    /// time, in increasing timestamp order.
    pub fn iter_window_t(&self, w: Range<i64>) -> (r: Vec<(i64, Prop)>)
        requires
            self.wf(),
        ensures
            r@ == logical_times(
                cell_window(
                    self@,
                    TimeIndexEntry::spec_start(w.start),
                    TimeIndexEntry::spec_start(w.end),
                ),
            ),
    {
        match self {
            TProp::Empty => {
                let out: Vec<(i64, Prop)> = Vec::new();
                assert(self@.filter(
                    in_window(
                        TimeIndexEntry::spec_start(w.start),
                        TimeIndexEntry::spec_start(w.end),
                    ),
                ) =~= Seq::<(TimeIndexEntry, Prop)>::empty());
                assert(out@ =~= logical_times(Seq::<(TimeIndexEntry, Prop)>::empty()));
                out
            },
            TProp::Str(cell) => cell_iter_window_t(cell, w),
            TProp::U8(cell) => cell_iter_window_t(cell, w),
            TProp::U16(cell) => cell_iter_window_t(cell, w),
            TProp::I32(cell) => cell_iter_window_t(cell, w),
            TProp::I64(cell) => cell_iter_window_t(cell, w),
            TProp::U32(cell) => cell_iter_window_t(cell, w),
            TProp::U64(cell) => cell_iter_window_t(cell, w),
            TProp::F32(cell) => cell_iter_window_t(cell, w),
            TProp::F64(cell) => cell_iter_window_t(cell, w),
            TProp::Bool(cell) => cell_iter_window_t(cell, w),
            TProp::DTime(cell) => cell_iter_window_t(cell, w),
            TProp::NDTime(cell) => cell_iter_window_t(cell, w),
            TProp::Graph(cell) => cell_iter_window_t(cell, w),
            TProp::PersistentGraph(cell) => cell_iter_window_t(cell, w),
            TProp::Document(cell) => cell_iter_window_t(cell, w),
            TProp::List(cell) => cell_iter_window_t(cell, w),
            TProp::Dict(cell) => cell_iter_window_t(cell, w),
        }
    }

    /// The latest write whose logical time is at most `t`.
    pub fn last_before(&self, t: i64) -> (r: Option<(TimeIndexEntry, Prop)>)
        requires
            self.wf(),
        ensures
            r == cell_last_before(self@, t),
    {
        match self {
            TProp::Empty => {
                assert(self@.filter(up_to(t)) =~= Seq::<(TimeIndexEntry, Prop)>::empty());
                None
            },
            TProp::Str(cell) => cell_value_before(cell, t),
            TProp::U8(cell) => cell_value_before(cell, t),
            TProp::U16(cell) => cell_value_before(cell, t),
            TProp::I32(cell) => cell_value_before(cell, t),
            TProp::I64(cell) => cell_value_before(cell, t),
            TProp::U32(cell) => cell_value_before(cell, t),
            TProp::U64(cell) => cell_value_before(cell, t),
            TProp::F32(cell) => cell_value_before(cell, t),
            TProp::F64(cell) => cell_value_before(cell, t),
            TProp::Bool(cell) => cell_value_before(cell, t),
            TProp::DTime(cell) => cell_value_before(cell, t),
            TProp::NDTime(cell) => cell_value_before(cell, t),
            TProp::Graph(cell) => cell_value_before(cell, t),
            TProp::PersistentGraph(cell) => cell_value_before(cell, t),
            TProp::Document(cell) => cell_value_before(cell, t),
            TProp::List(cell) => cell_value_before(cell, t),
            TProp::Dict(cell) => cell_value_before(cell, t),
        }
    }

    /// The value written at exactly `ti`.
    pub fn at(&self, ti: &TimeIndexEntry) -> (r: Option<Prop>)
        requires
            self.wf(),
        ensures
            r == cell_at(self@, *ti),
    {
        match self {
            TProp::Empty => {
                assert(self@.filter(at_time(*ti)) =~= Seq::<(TimeIndexEntry, Prop)>::empty());
                None
            },
            TProp::Str(cell) => cell_value_at(cell, ti),
            TProp::U8(cell) => cell_value_at(cell, ti),
            TProp::U16(cell) => cell_value_at(cell, ti),
            TProp::I32(cell) => cell_value_at(cell, ti),
            TProp::I64(cell) => cell_value_at(cell, ti),
            TProp::U32(cell) => cell_value_at(cell, ti),
            TProp::U64(cell) => cell_value_at(cell, ti),
            TProp::F32(cell) => cell_value_at(cell, ti),
            TProp::F64(cell) => cell_value_at(cell, ti),
            TProp::Bool(cell) => cell_value_at(cell, ti),
            TProp::DTime(cell) => cell_value_at(cell, ti),
            TProp::NDTime(cell) => cell_value_at(cell, ti),
            TProp::Graph(cell) => cell_value_at(cell, ti),
            TProp::PersistentGraph(cell) => cell_value_at(cell, ti),
            TProp::Document(cell) => cell_value_at(cell, ti),
            TProp::List(cell) => cell_value_at(cell, ti),
            TProp::Dict(cell) => cell_value_at(cell, ti),
        }
    }

    /// The number of writes that were kept.
    pub fn len(&self) -> (n: usize)
        ensures
            n == self@.len(),
    {
        match self {
            TProp::Empty => 0,
            TProp::Str(v) => v.len(),
            TProp::U8(v) => v.len(),
            TProp::U16(v) => v.len(),
            TProp::I32(v) => v.len(),
            TProp::I64(v) => v.len(),
            TProp::U32(v) => v.len(),
            TProp::U64(v) => v.len(),
            TProp::F32(v) => v.len(),
            TProp::F64(v) => v.len(),
            TProp::Bool(v) => v.len(),
            TProp::DTime(v) => v.len(),
            TProp::NDTime(v) => v.len(),
            TProp::Graph(v) => v.len(),
            TProp::PersistentGraph(v) => v.len(),
            TProp::Document(v) => v.len(),
            TProp::List(v) => v.len(),
            TProp::Dict(v) => v.len(),
        }
    }
}

} // verus!
