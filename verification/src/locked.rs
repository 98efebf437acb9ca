//! Read handles that keep one node record alive while a reader walks its
//! edges, neighbours or layers.

use crate::adj::{
    lemma_rest_is_suffix, page_after, rest_after, sorted_by_neighbour, Adj,
};
use crate::entities::{Dir, Direction, EdgeRef, LayerIds, EID, VID};
use crate::merging::{ascending_by_remote, strictly_ascending};
use crate::node_store::NodeStore;
use crate::prop::share;
use std::sync::Arc;
use vstd::prelude::*;

verus! {

/// A shared handle on one record. The record lives as long as any handle
/// on it does.
pub struct ArcEntry<T> {
    value: Arc<T>,
}

impl<T> ArcEntry<T> {
    /// The record behind the handle.
    pub closed spec fn spec_get(&self) -> T {
        *self.value
    }

    /// A handle on `value`.
    pub fn new(value: T) -> (r: ArcEntry<T>)
        ensures
            r.spec_get() == value,
    {
        ArcEntry { value: Arc::new(value) }
    }

    /// The record behind the handle.
    pub fn get(&self) -> (r: &T)
        ensures
            *r == self.spec_get(),
    {
        &self.value
    }
}

impl<T> Clone for ArcEntry<T> {
    /// A second handle on the same record.
    fn clone(&self) -> (r: Self)
        ensures
            r == *self,
    {
        ArcEntry { value: share(&self.value) }
    }
}

/// The edges of one node, handed out one by one in the order of
/// `NodeStore::edge_tuples`.
pub struct LockedAdjIter {
    entry: ArcEntry<NodeStore>,
    items: Vec<EdgeRef>,
    pos: usize,
}

impl LockedAdjIter {
    pub closed spec fn wf(&self) -> bool {
        self.pos <= self.items@.len()
    }

    /// The edges that are still to come.
    pub closed spec fn remaining(&self) -> Seq<EdgeRef> {
        self.items@.skip(self.pos as int)
    }

    /// The handle that the iterator holds.
    pub closed spec fn entry(&self) -> ArcEntry<NodeStore> {
        self.entry
    }

    /// The next edge, if any is left.
    pub fn next(&mut self) -> (r: Option<EdgeRef>)
        requires
            old(self).wf(),
        ensures
            final(self).wf(),
            final(self).entry() == old(self).entry(),
            match r {
                Some(e) => old(self).remaining().len() > 0 && e == old(self).remaining().first()
                    && final(self).remaining() == old(self).remaining().drop_first(),
                None => old(self).remaining().len() == 0 && final(self).remaining() == old(self).remaining(),
            },
    {
        if self.pos < self.items.len() {
            let e = self.items[self.pos];
            assert(self.items@.skip(self.pos + 1) =~= self.items@.skip(
                self.pos as int,
            ).drop_first());
            self.pos += 1;
            Some(e)
        } else {
            None
        }
    }
}

/// The neighbours of one node, handed out one by one in ascending order,
/// each once.
pub struct LockedNeighboursIter {
    entry: ArcEntry<NodeStore>,
    items: Vec<VID>,
    pos: usize,
}

impl LockedNeighboursIter {
    pub closed spec fn wf(&self) -> bool {
        self.pos <= self.items@.len()
    }

    /// The neighbours that are still to come.
    pub closed spec fn remaining(&self) -> Seq<VID> {
        self.items@.skip(self.pos as int)
    }

    /// The handle that the iterator holds.
    pub closed spec fn entry(&self) -> ArcEntry<NodeStore> {
        self.entry
    }

    /// The next neighbour, if any is left.
    pub fn next(&mut self) -> (r: Option<VID>)
        requires
            old(self).wf(),
        ensures
            final(self).wf(),
            final(self).entry() == old(self).entry(),
            match r {
                Some(v) => old(self).remaining().len() > 0 && v == old(self).remaining().first()
                    && final(self).remaining() == old(self).remaining().drop_first(),
                None => old(self).remaining().len() == 0 && final(self).remaining() == old(self).remaining(),
            },
    {
        if self.pos < self.items.len() {
            let v = self.items[self.pos];
            assert(self.items@.skip(self.pos + 1) =~= self.items@.skip(
                self.pos as int,
            ).drop_first());
            self.pos += 1;
            Some(v)
        } else {
            None
        }
    }
}

/// One layer of one node's adjacency, behind a handle on the node.
pub struct LockedLayer {
    entry: ArcEntry<NodeStore>,
    offset: usize,
}

impl LockedLayer {
    /// The node is well formed and has the layer.
    pub closed spec fn wf(&self) -> bool {
        self.entry.spec_get().wf() && self.offset < self.entry.spec_get()@.layers.len()
    }

    /// The handle that the layer holds.
    pub closed spec fn entry(&self) -> ArcEntry<NodeStore> {
        self.entry
    }

    /// The id of the layer.
    pub closed spec fn spec_offset(&self) -> usize {
        self.offset
    }

    /// The entries of the layer in direction `dir`, in neighbour order.
    pub open spec fn entries(&self, dir: Dir) -> Seq<(VID, EID)> {
        self.entry().spec_get()@.layers[self.spec_offset() as int].entries(dir)
    }

    pub fn offset(&self) -> (l: usize)
        ensures
            l == self.spec_offset(),
    {
        self.offset
    }

    /// The adjacency of the layer.
    pub fn adj(&self) -> (r: &Adj)
        requires
            self.wf(),
        ensures
            r.wf(),
            r@ == self.entry().spec_get()@.layers[self.spec_offset() as int],
    {
        self.entry.get().layer_at(self.offset)
    }

    /// A paged traversal of the layer's entries in direction `dir`, with
    /// pages of 256 entries.
    pub fn into_tuples(self, dir: Dir) -> (r: PagedAdjIter<256>)
        requires
            self.wf(),
        ensures
            r.wf(),
            r.remaining() == self.entries(dir),
    {
        self.into_paged::<256>(dir)
    }

    /// A paged traversal of the layer's entries in direction `dir`, with
    /// pages of `P` entries.
    pub fn into_paged<const P: usize>(self, dir: Dir) -> (r: PagedAdjIter<P>)
        requires
            self.wf(),
            P > 0,
        ensures
            r.wf(),
            r.remaining() == self.entries(dir),
    {
        let mut page: Vec<(VID, EID)> = Vec::new();
        let page_size = self.adj().fill_page(None, &mut page, P, dir);
        proof {
            let s = self.entries(dir);
            assert(s.skip(0) =~= s);
            if s.len() <= P {
                assert(s.subrange(0, s.len() as int) =~= s);
            } else {
                assert(s.subrange(0, P as int) =~= s.take(P as int));
            }
        }
        PagedAdjIter { layer: self, page, page_offset: 0, page_size, dir, start: Ghost(0) }
    }
}

/// The layers of one node, handed out one by one by ascending layer id.
pub struct LockedLayers {
    entry: ArcEntry<NodeStore>,
    pos: usize,
    len: usize,
}

impl LockedLayers {
    /// The node is well formed and the cursor lies within its layers.
    pub closed spec fn wf(&self) -> bool {
        self.entry.spec_get().wf() && self.len == self.entry.spec_get()@.layers.len() && self.pos
            <= self.len
    }

    /// The handle that the iterator holds.
    pub closed spec fn entry(&self) -> ArcEntry<NodeStore> {
        self.entry
    }

    /// The id of the layer that comes next.
    pub closed spec fn spec_pos(&self) -> usize {
        self.pos
    }

    /// The number of layers of the node.
    pub closed spec fn spec_len(&self) -> usize {
        self.len
    }

    /// The next layer, if any is left.
    pub fn next(&mut self) -> (r: Option<LockedLayer>)
        requires
            old(self).wf(),
        ensures
            final(self).wf(),
            final(self).entry() == old(self).entry(),
            final(self).spec_len() == old(self).spec_len(),
            match r {
                Some(layer) => old(self).spec_pos() < old(self).spec_len() && layer.wf()
                    && layer.entry() == old(self).entry() && layer.spec_offset() == old(self).spec_pos() && final(self).spec_pos() == old(self).spec_pos() + 1,
                None => old(self).spec_pos() == old(self).spec_len() && final(self).spec_pos()
                    == old(self).spec_pos(),
            },
    {
        if self.pos < self.len {
            let layer = LockedLayer { entry: self.entry.clone(), offset: self.pos };
            self.pos += 1;
            Some(layer)
        } else {
            None
        }
    }

    /// The number of layers of the node, as lower and upper bound.
    pub fn size_hint(&self) -> (r: (usize, Option<usize>))
        ensures
            r == (self.spec_len(), Some(self.spec_len())),
    {
        (self.len, Some(self.len))
    }
}

/// A traversal of one layer's entries in one direction that holds at most
/// `P` entries at a time: when a full page is used up, the next page is
/// read from after the last neighbour handed out.
pub struct PagedAdjIter<const P: usize> {
    layer: LockedLayer,
    page: Vec<(VID, EID)>,
    page_offset: usize,
    page_size: usize,
    dir: Dir,
    start: Ghost<nat>,
}

impl<const P: usize> PagedAdjIter<P> {
    /// The entries that the traversal walks.
    pub closed spec fn entries(&self) -> Seq<(VID, EID)> {
        self.layer.entries(self.dir)
    }

    /// The page is a block of the entries, and only the last page may be
    /// partial.
    pub closed spec fn wf(&self) -> bool {
        let s = self.entries();
        &&& P > 0
        &&& self.layer.wf()
        &&& sorted_by_neighbour(s)
        &&& self.page_size <= P
        &&& self.page_offset <= self.page_size
        &&& self.page@.len() == self.page_size
        &&& self.start@ + self.page_size <= s.len()
        &&& self.page@ == s.subrange(self.start@ as int, self.start@ + self.page_size)
        &&& self.page_size < P ==> self.start@ + self.page_size == s.len()
    }

    /// The entries that are still to come.
    pub closed spec fn remaining(&self) -> Seq<(VID, EID)> {
        self.entries().skip(self.start@ + self.page_offset)
    }

    /// The number of entries that the traversal holds in its page.
    pub closed spec fn buffered(&self) -> nat {
        self.page@.len()
    }

    /// The page never holds more than `P` entries.
    pub proof fn lemma_page_bound(&self)
        requires
            self.wf(),
        ensures
            self.buffered() <= P,
    {
    }

    /// The next entry, if any is left.
    pub fn next(&mut self) -> (r: Option<(VID, EID)>)
        requires
            old(self).wf(),
        ensures
            final(self).wf(),
            final(self).entries() == old(self).entries(),
            match r {
                Some(e) => old(self).remaining().len() > 0 && e == old(self).remaining().first()
                    && final(self).remaining() == old(self).remaining().drop_first(),
                None => old(self).remaining().len() == 0 && final(self).remaining() == old(self).remaining(),
            },
    {
        let ghost s = self.entries();
        if self.page_offset < self.page_size {
            let item = self.page[self.page_offset];
            assert(s.skip(self.start@ + self.page_offset + 1) =~= s.skip(
                self.start@ + self.page_offset,
            ).drop_first());
            self.page_offset += 1;
            Some(item)
        } else if self.page_size == P {
            let last = self.page[P - 1].0;
            let ghost from = self.start@ + P;
            proof {
                assert(last == s[from - 1].0);
                let k = lemma_rest_is_suffix(s, Some(last));
                if k < from {
                    assert(s[k].0.0 > last.0);
                    if k < from - 1 {
                        assert(s[k].0.0 < s[from - 1].0.0);
                    }
                }
                if k > from {
                    assert(s[from].0.0 <= last.0);
                    assert(s[from - 1].0.0 < s[from].0.0);
                }
                assert(rest_after(s, Some(last)) == s.skip(from));
            }
            self.page_offset = 0;
            self.page_size = self.layer.adj().fill_page(Some(last), &mut self.page, P, self.dir);
            proof {
                self.start = Ghost(from as nat);
                let rest = s.skip(from);
                if rest.len() <= P {
                    assert(rest =~= s.subrange(from, from + rest.len()));
                } else {
                    assert(rest.take(P as int) =~= s.subrange(from, from + P));
                }
            }
            if self.page_size > 0 {
                let item = self.page[0];
                assert(s.skip(from + 1) =~= s.skip(from).drop_first());
                self.page_offset = 1;
                Some(item)
            } else {
                None
            }
        } else {
            None
        }
    }

    /// Everything that is still to come, in order.
    pub fn collect(self) -> (r: Vec<(VID, EID)>)
        requires
            self.wf(),
        ensures
            r@ == self.remaining(),
    {
        let mut it = self;
        let mut out: Vec<(VID, EID)> = Vec::new();
        let ghost all = it.remaining();
        loop
            invariant
                it.wf(),
                all == self.remaining(),
                out@ + it.remaining() == all,
            decreases it.remaining().len(),
        {
            let ghost before = it.remaining();
            match it.next() {
                Some(e) => {
                    out.push(e);
                    assert(out@ + it.remaining() =~= all) by {
                        assert(seq![e] + before.drop_first() =~= before);
                    }
                },
                None => {
                    assert(out@ =~= all);
                    return out;
                },
            }
        }
    }
}

impl ArcEntry<NodeStore> {
    /// The record behind the handle is well formed.
    pub open spec fn wf(&self) -> bool {
        self.spec_get().wf()
    }

    /// The edges in direction `dir` over the selected layers, one by one.
    pub fn into_edges(self, layers: &LayerIds, dir: Direction) -> (r: LockedAdjIter)
        requires
            self.wf(),
        ensures
            r.wf(),
            r.entry() == self,
            r.remaining() == self.spec_get()@.edge_tuples(*layers, dir),
            ascending_by_remote(r.remaining()),
    {
        let items = self.get().edge_tuples(layers, dir);
        assert(items@.skip(0) =~= items@);
        LockedAdjIter { entry: self, items, pos: 0 }
    }

    /// The neighbours in direction `dir` over the selected layers, each
    /// once, in ascending order, one by one.
    pub fn into_neighbours(self, layers: &LayerIds, dir: Direction) -> (r: LockedNeighboursIter)
        requires
            self.wf(),
        ensures
            r.wf(),
            r.entry() == self,
            strictly_ascending(r.remaining()),
            r.remaining().no_duplicates(),
            forall|v: VID|
                r.remaining().contains(v) <==> self.spec_get()@.has_neighbour(*layers, dir, v),
    {
        let items = self.get().neighbours(layers, dir);
        assert(items@.skip(0) =~= items@);
        LockedNeighboursIter { entry: self, items, pos: 0 }
    }

    /// The layers of the node, one by one by ascending layer id.
    pub fn into_layers(self) -> (r: LockedLayers)
        requires
            self.wf(),
        ensures
            r.wf(),
            r.entry() == self,
            r.spec_pos() == 0,
            r.spec_len() == self.spec_get()@.layers.len(),
    {
        let len = self.get().num_layers();
        LockedLayers { entry: self, pos: 0, len }
    }

    /// The layer `offset` of the node, if it has that layer.
    pub fn into_layer(self, offset: usize) -> (r: Option<LockedLayer>)
        requires
            self.wf(),
        ensures
            r is Some <==> offset < self.spec_get()@.layers.len(),
            r matches Some(layer) ==> layer.wf() && layer.entry() == self && layer.spec_offset()
                == offset,
    {
        if offset < self.get().num_layers() {
            Some(LockedLayer { entry: self, offset })
        } else {
            None
        }
    }
}

} // verus!
