//! Dense identifiers, directions, layer selectors and edge references.

use crate::timeindex::TimeIndexEntry;
use vstd::prelude::*;

verus! {

/// Dense, zero-based identifier of a node. Assigned once, never reused.
#[derive(Copy, Clone, Debug, PartialEq, Eq, PartialOrd, Ord, Hash, Default, Structural)]
pub struct VID(pub usize);

/// Dense, zero-based identifier of an edge. Assigned once, never reused.
#[derive(Copy, Clone, Debug, PartialEq, Eq, PartialOrd, Ord, Hash, Default, Structural)]
pub struct EID(pub usize);

impl VID {
    pub fn index(&self) -> (i: usize)
        ensures
            i == self.0,
    {
        self.0
    }
}

impl EID {
    pub fn index(&self) -> (i: usize)
        ensures
            i == self.0,
    {
        self.0
    }
}

/// Direction of a query relative to one node.
#[derive(Copy, Clone, Debug, PartialEq, Eq, Hash, Structural)]
pub enum Direction {
    OUT,
    IN,
    BOTH,
}

/// Direction of one stored adjacency entry relative to the node that holds it.
#[derive(Copy, Clone, Debug, PartialEq, Eq, Hash, Structural)]
pub enum Dir {
    Into,
    Out,
}

impl Dir {
    pub open spec fn direction(self) -> Direction {
        match self {
            Dir::Into => Direction::IN,
            Dir::Out => Direction::OUT,
        }
    }

    /// The query direction that selects entries of this kind.
    pub fn as_direction(&self) -> (d: Direction)
        ensures
            d == self.direction(),
    {
        match self {
            Dir::Into => Direction::IN,
            Dir::Out => Direction::OUT,
        }
    }
}

/// Selects the layers a read operates on.
#[derive(Debug, PartialEq, Eq)]
pub enum LayerIds {
    /// No layer at all: every read comes back empty.
    Empty,
    All,
    One(usize),
    Multiple(Vec<usize>),
}

impl Clone for LayerIds {
    fn clone(&self) -> (r: Self)
        ensures
            forall|l: usize| r.selects(l) == self.selects(l),
    {
        match self {
            LayerIds::Empty => LayerIds::Empty,
            LayerIds::All => LayerIds::All,
            LayerIds::One(id) => LayerIds::One(*id),
            LayerIds::Multiple(ids) => {
                let copy = ids.clone();
                assert(copy@ =~= ids@);
                LayerIds::Multiple(copy)
            },
        }
    }
}

impl LayerIds {
    /// Whether the selector admits the layer with id `layer`.
    pub open spec fn selects(self, layer: usize) -> bool {
        match self {
            LayerIds::Empty => false,
            LayerIds::All => true,
            LayerIds::One(id) => id == layer,
            LayerIds::Multiple(ids) => ids@.contains(layer),
        }
    }

    pub fn contains(&self, layer: usize) -> (b: bool)
        ensures
            b == self.selects(layer),
    {
        match self {
            LayerIds::Empty => false,
            LayerIds::All => true,
            LayerIds::One(id) => *id == layer,
            LayerIds::Multiple(ids) => {
                let mut i: usize = 0;
                while i < ids.len()
                    invariant
                        i <= ids.len(),
                        *self == LayerIds::Multiple(*ids),
                        forall|j: int| 0 <= j < i ==> ids@[j] != layer,
                    decreases ids.len() - i,
                {
                    if ids[i] == layer {
                        assert((*ids)@[i as int] == layer);
                        return true;
                    }
                    i += 1;
                }
                false
            },
        }
    }
}

/// A reference to one edge as seen from one of its endpoints.
///
/// `src_pid` and `dst_pid` are the endpoints; `e_type` says on which side the
/// node that produced the reference sits. `time` is set on exploded
/// references (one per update), `layer_id` on references bound to one layer.
#[derive(Copy, Clone, Debug, PartialEq, Eq, Hash, Structural)]
pub struct EdgeRef {
    pub e_pid: EID,
    pub src_pid: VID,
    pub dst_pid: VID,
    pub e_type: Dir,
    pub time: Option<TimeIndexEntry>,
    pub layer_id: Option<usize>,
}

impl EdgeRef {
    /// The endpoint on the far side of the node that produced the reference.
    pub open spec fn spec_remote(self) -> VID {
        match self.e_type {
            Dir::Into => self.src_pid,
            Dir::Out => self.dst_pid,
        }
    }

    /// The endpoint that produced the reference.
    pub open spec fn spec_local(self) -> VID {
        match self.e_type {
            Dir::Into => self.dst_pid,
            Dir::Out => self.src_pid,
        }
    }

    /// The reference to edge `e` from `src` to `dst` as `src` sees it.
    pub open spec fn outgoing(e: EID, src: VID, dst: VID) -> EdgeRef {
        EdgeRef { e_pid: e, src_pid: src, dst_pid: dst, e_type: Dir::Out, time: None, layer_id: None }
    }

    /// The reference to edge `e` from `src` to `dst` as `dst` sees it.
    pub open spec fn incoming(e: EID, src: VID, dst: VID) -> EdgeRef {
        EdgeRef { e_pid: e, src_pid: src, dst_pid: dst, e_type: Dir::Into, time: None, layer_id: None }
    }

    pub fn new_outgoing(e_pid: EID, src_pid: VID, dst_pid: VID) -> (r: EdgeRef)
        ensures
            r == EdgeRef::outgoing(e_pid, src_pid, dst_pid),
    {
        EdgeRef { e_pid, src_pid, dst_pid, e_type: Dir::Out, time: None, layer_id: None }
    }

    pub fn new_incoming(e_pid: EID, src_pid: VID, dst_pid: VID) -> (r: EdgeRef)
        ensures
            r == EdgeRef::incoming(e_pid, src_pid, dst_pid),
    {
        EdgeRef { e_pid, src_pid, dst_pid, e_type: Dir::Into, time: None, layer_id: None }
    }

    pub fn pid(&self) -> (e: EID)
        ensures
            e == self.e_pid,
    {
        self.e_pid
    }

    pub fn src(&self) -> (v: VID)
        ensures
            v == self.src_pid,
    {
        self.src_pid
    }

    pub fn dst(&self) -> (v: VID)
        ensures
            v == self.dst_pid,
    {
        self.dst_pid
    }

    pub fn dir(&self) -> (d: Dir)
        ensures
            d == self.e_type,
    {
        self.e_type
    }

    pub fn time(&self) -> (t: Option<TimeIndexEntry>)
        ensures
            t == self.time,
    {
        self.time
    }

    pub fn time_t(&self) -> (t: Option<i64>)
        ensures
            t == match self.time {
                Some(ti) => Some(ti.0),
                None => None,
            },
    {
        match self.time {
            Some(ti) => Some(ti.0),
            None => None,
        }
    }

    pub fn layer(&self) -> (l: Option<usize>)
        ensures
            l == self.layer_id,
    {
        self.layer_id
    }

    pub fn remote(&self) -> (v: VID)
        ensures
            v == self.spec_remote(),
    {
        match self.e_type {
            Dir::Into => self.src_pid,
            Dir::Out => self.dst_pid,
        }
    }

    pub fn local(&self) -> (v: VID)
        ensures
            v == self.spec_local(),
    {
        match self.e_type {
            Dir::Into => self.dst_pid,
            Dir::Out => self.src_pid,
        }
    }

    /// The same edge, pinned to one update time.
    pub fn at(&self, time: TimeIndexEntry) -> (r: EdgeRef)
        ensures
            r == (EdgeRef { time: Some(time), ..*self }),
    {
        EdgeRef {
            e_pid: self.e_pid,
            src_pid: self.src_pid,
            dst_pid: self.dst_pid,
            e_type: self.e_type,
            time: Some(time),
            layer_id: self.layer_id,
        }
    }

    /// The same edge, pinned to one layer.
    pub fn at_layer(&self, layer: usize) -> (r: EdgeRef)
        ensures
            r == (EdgeRef { layer_id: Some(layer), ..*self }),
    {
        EdgeRef {
            e_pid: self.e_pid,
            src_pid: self.src_pid,
            dst_pid: self.dst_pid,
            e_type: self.e_type,
            time: self.time,
            layer_id: Some(layer),
        }
    }

    /// Whether `a` goes strictly before `b` when edges are ordered by their
    /// remote endpoint.
    pub open spec fn remote_lt(a: EdgeRef, b: EdgeRef) -> bool {
        a.spec_remote().0 < b.spec_remote().0
    }

    pub fn remote_before(a: &EdgeRef, b: &EdgeRef) -> (r: bool)
        ensures
            r == EdgeRef::remote_lt(*a, *b),
    {
        a.remote().0 < b.remote().0
    }

    /// Field-wise equality.
    pub fn same(a: &EdgeRef, b: &EdgeRef) -> (r: bool)
        ensures
            r == (*a == *b),
    {
        *a == *b
    }
}

} // verus!

