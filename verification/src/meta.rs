//! The registries that hand out dense ids for names: layers, node types
//! and properties with their declared kinds.

use crate::errors::GraphError;
use crate::prop::PropType;
use vstd::prelude::*;

verus! {

/// The id of `name` in `names`, if it is there.
pub open spec fn id_of(names: Seq<Seq<char>>, name: Seq<char>) -> Option<usize> {
    if names.contains(name) {
        Some(names.index_of(name) as usize)
    } else {
        None
    }
}

/// The names after `name` is resolved: a known name changes nothing, a new
/// one goes to the end and so gets the next id.
pub open spec fn with_name(names: Seq<Seq<char>>, name: Seq<char>) -> Seq<Seq<char>> {
    if names.contains(name) {
        names
    } else {
        names.push(name)
    }
}

/// The id that resolving `name` gives.
pub open spec fn resolved_id(names: Seq<Seq<char>>, name: Seq<char>) -> usize {
    if names.contains(name) {
        names.index_of(name) as usize
    } else {
        names.len() as usize
    }
}

/// Resolving every name of `more`, one after the other.
pub open spec fn with_names(names: Seq<Seq<char>>, more: Seq<Seq<char>>) -> Seq<Seq<char>>
    decreases more.len(),
{
    if more.len() == 0 {
        names
    } else {
        with_names(with_name(names, more.first()), more.drop_first())
    }
}

/// Resolving a name keeps the names distinct, keeps every id that was
/// given out, and gives the name an id that stays.
pub proof fn lemma_with_name(names: Seq<Seq<char>>, name: Seq<char>)
    requires
        names.no_duplicates(),
    ensures
        with_name(names, name).no_duplicates(),
        with_name(names, name).contains(name),
        resolved_id(with_name(names, name), name) == resolved_id(names, name),
        forall|other: Seq<char>|
            names.contains(other) ==> with_name(names, name).contains(other) && resolved_id(
                with_name(names, name),
                other,
            ) == resolved_id(names, other),
        names.len() <= with_name(names, name).len(),
{
    let r = with_name(names, name);
    if !names.contains(name) {
        assert(r[names.len() as int] == name);
        assert forall|i: int, j: int| 0 <= i < j < r.len() implies r[i] != r[j] by {
            if j < names.len() {
                assert(r[i] == names[i] && r[j] == names[j]);
            } else {
                assert(r[i] == names[i]);
                assert(names.contains(r[i]));
            }
        }
        assert forall|other: Seq<char>| names.contains(other) implies r.contains(other)
            && resolved_id(r, other) == resolved_id(names, other) by {
            let i = names.index_of(other);
            assert(r[i] == other);
            let j = r.index_of(other);
            if j != i {
                if i < j {
                    assert(r[i] != r[j]);
                } else {
                    assert(r[j] != r[i]);
                }
            }
        }
        let j = r.index_of(name);
        if j != names.len() {
            assert(r[j] != r[names.len() as int]);
        }
    }
}

/// Whatever names are resolved in between, a name that has an id keeps
/// it.
pub proof fn lemma_id_is_stable(names: Seq<Seq<char>>, more: Seq<Seq<char>>, name: Seq<char>)
    requires
        names.no_duplicates(),
        names.contains(name),
    ensures
        with_names(names, more).no_duplicates(),
        with_names(names, more).contains(name),
        resolved_id(with_names(names, more), name) == resolved_id(names, name),
    decreases more.len(),
{
    if more.len() > 0 {
        lemma_with_name(names, more.first());
        lemma_id_is_stable(with_name(names, more.first()), more.drop_first(), name);
    }
}

/// A registry of names: every name has one id and every id one name. Ids
/// are given out in the order in which names are first seen.
#[derive(Debug, PartialEq, Eq)]
pub struct DictMapper {
    names: Vec<String>,
}

impl View for DictMapper {
    type V = Seq<Seq<char>>;

    /// The names, by id.
    closed spec fn view(&self) -> Seq<Seq<char>> {
        self.names@.map_values(|s: String| s@)
    }
}

impl DictMapper {
    /// No name occurs twice.
    pub open spec fn wf(&self) -> bool {
        self@.no_duplicates()
    }

    pub fn new() -> (r: DictMapper)
        ensures
            r.wf(),
            r@ == Seq::<Seq<char>>::empty(),
    {
        let r = DictMapper { names: Vec::new() };
        assert(r@ =~= Seq::<Seq<char>>::empty());
        r
    }

    pub fn len(&self) -> (n: usize)
        ensures
            n == self@.len(),
    {
        self.names.len()
    }

    /// The id of `name`, if it has one.
    pub fn get_id(&self, name: &str) -> (r: Option<usize>)
        requires
            self.wf(),
        ensures
            r == id_of(self@, name@),
            r matches Some(id) ==> id < self@.len() && self@[id as int] == name@ && self@.index_of(
                name@,
            ) == id,
            r is None ==> !self@.contains(name@),
    {
        let wanted = name.to_owned();
        let mut i: usize = 0;
        while i < self.names.len()
            invariant
                i <= self.names.len(),
                self.wf(),
                wanted@ == name@,
                forall|j: int| 0 <= j < i ==> self@[j] != name@,
            decreases self.names.len() - i,
        {
            if self.names[i] == wanted {
                proof {
                    assert(self@[i as int] == name@);
                    let k = self@.index_of(name@);
                    if k != i {
                        if k < i {
                            assert(self@[k] != self@[i as int]);
                        } else {
                            assert(self@[i as int] != self@[k]);
                        }
                    }
                }
                return Some(i);
            }
            i += 1;
        }
        None
    }

    /// The id of `name`; a name that has none gets the next free id.
    pub fn get_or_create_id(&mut self, name: &str) -> (id: usize)
        requires
            old(self).wf(),
        ensures
            final(self).wf(),
            final(self)@ == with_name(old(self)@, name@),
            id == resolved_id(old(self)@, name@),
            id < final(self)@.len(),
            final(self)@[id as int] == name@,
    {
        proof {
            lemma_with_name(self@, name@);
        }
        match self.get_id(name) {
            Some(id) => id,
            None => {
                let id = self.names.len();
                let ghost before = self@;
                self.names.push(name.to_owned());
                assert(self@ =~= before.push(name@));
                id
            },
        }
    }

    /// The name that has the id `id`.
    pub fn get_name(&self, id: usize) -> (r: Option<&String>)
        ensures
            match r {
                Some(s) => id < self@.len() && s@ == self@[id as int],
                None => id >= self@.len(),
            },
    {
        if id < self.names.len() {
            Some(&self.names[id])
        } else {
            None
        }
    }
}

/// A registry of property names with the kind that each was declared
/// with.
#[derive(Debug, PartialEq, Eq)]
pub struct PropMapper {
    names: DictMapper,
    dtypes: Vec<PropType>,
}

impl PropMapper {
    /// The property names, by id.
    pub closed spec fn names(&self) -> Seq<Seq<char>> {
        self.names@
    }

    /// The declared kinds, by id.
    pub closed spec fn dtypes(&self) -> Seq<PropType> {
        self.dtypes@
    }

    /// Every name has a kind and no name occurs twice.
    pub open spec fn wf(&self) -> bool {
        self.names().no_duplicates() && self.names().len() == self.dtypes().len()
    }

    pub fn new() -> (r: PropMapper)
        ensures
            r.wf(),
            r.names() == Seq::<Seq<char>>::empty(),
            r.dtypes() == Seq::<PropType>::empty(),
    {
        PropMapper { names: DictMapper::new(), dtypes: Vec::new() }
    }

    /// The id of the property `name`, if it is registered.
    pub fn get_id(&self, name: &str) -> (r: Option<usize>)
        requires
            self.wf(),
        ensures
            r == id_of(self.names(), name@),
            r matches Some(id) ==> id < self.names().len() && self.names()[id as int] == name@
                && self.names().index_of(name@) == id,
            r is None ==> !self.names().contains(name@),
    {
        self.names.get_id(name)
    }

    /// The name of the property `id`.
    pub fn get_name(&self, id: usize) -> (r: Option<&String>)
        ensures
            match r {
                Some(s) => id < self.names().len() && s@ == self.names()[id as int],
                None => id >= self.names().len(),
            },
    {
        self.names.get_name(id)
    }

    /// The declared kind of the property `id`.
    pub fn get_dtype(&self, id: usize) -> (r: Option<PropType>)
        ensures
            r == if id < self.dtypes().len() {
                Some(self.dtypes()[id as int])
            } else {
                None
            },
    {
        if id < self.dtypes.len() {
            Some(self.dtypes[id])
        } else {
            None
        }
    }

    /// The id of the property `name` declared with kind `dtype`.
    ///
    /// A new name is registered with that kind and gets the next free id.
    /// A known name keeps its id; if it was declared with another kind the
    /// call fails and the registry stays as it is.
    pub fn get_or_create_and_validate(&mut self, name: &str, dtype: PropType) -> (r: Result<
        usize,
        GraphError,
    >)
        requires
            old(self).wf(),
        ensures
            final(self).wf(),
            r is Ok <==> (!old(self).names().contains(name@) || old(self).dtypes()[old(self).names().index_of(name@)] == dtype),
            r matches Ok(id) ==> id == resolved_id(old(self).names(), name@) && final(self).names()
                == with_name(old(self).names(), name@) && final(self).dtypes() == (if old(self).names().contains(name@) {
                old(self).dtypes()
            } else {
                old(self).dtypes().push(dtype)
            }) && final(self).dtypes()[id as int] == dtype,
            r matches Err(e) ==> final(self).names() == old(self).names() && final(self).dtypes()
                == old(self).dtypes() && (e matches GraphError::PropertyTypeError {
                name: n,
                expected,
                actual,
            } && n@ == name@ && expected == old(self).dtypes()[old(self).names().index_of(name@)]
                && actual == dtype),
    {
        match self.names.get_id(name) {
            Some(id) => {
                let expected = self.dtypes[id];
                if expected == dtype {
                    Ok(id)
                } else {
                    Err(
                        GraphError::PropertyTypeError {
                            name: name.to_owned(),
                            expected,
                            actual: dtype,
                        },
                    )
                }
            },
            None => {
                let id = self.names.get_or_create_id(name);
                self.dtypes.push(dtype);
                Ok(id)
            },
        }
    }
}

/// The name of the layer that edges without a layer name go to, and of
/// the type of nodes without a type.
pub open spec fn default_name() -> Seq<char> {
    "_default"@
}

/// What the registries of one kind of entity hold.
pub struct MetaView {
    /// The layer names, by layer id.
    pub layers: Seq<Seq<char>>,
    /// The node type names, by type id.
    pub node_types: Seq<Seq<char>>,
    /// The names of the temporal properties, by property id.
    pub temporal_names: Seq<Seq<char>>,
    /// The declared kinds of the temporal properties, by property id.
    pub temporal_dtypes: Seq<PropType>,
    /// The names of the constant properties, by property id.
    pub constant_names: Seq<Seq<char>>,
    /// The declared kinds of the constant properties, by property id.
    pub constant_dtypes: Seq<PropType>,
}

impl MetaView {
    /// The names of the properties of one sort.
    pub open spec fn prop_names(self, is_static: bool) -> Seq<Seq<char>> {
        if is_static {
            self.constant_names
        } else {
            self.temporal_names
        }
    }

    /// The declared kinds of the properties of one sort.
    pub open spec fn prop_dtypes(self, is_static: bool) -> Seq<PropType> {
        if is_static {
            self.constant_dtypes
        } else {
            self.temporal_dtypes
        }
    }

    /// Whether the property `name` can be resolved with kind `dtype`: it is
    /// new, or it was declared with that kind.
    pub open spec fn admits(self, name: Seq<char>, dtype: PropType, is_static: bool) -> bool {
        !self.prop_names(is_static).contains(name) || self.prop_dtypes(
            is_static,
        )[self.prop_names(is_static).index_of(name)] == dtype
    }

    /// The registries after the property `name` is resolved with kind
    /// `dtype`, which they admit.
    pub open spec fn with_prop(self, name: Seq<char>, dtype: PropType, is_static: bool) -> MetaView {
        if self.prop_names(is_static).contains(name) {
            self
        } else if is_static {
            MetaView {
                constant_names: self.constant_names.push(name),
                constant_dtypes: self.constant_dtypes.push(dtype),
                ..self
            }
        } else {
            MetaView {
                temporal_names: self.temporal_names.push(name),
                temporal_dtypes: self.temporal_dtypes.push(dtype),
                ..self
            }
        }
    }
}

/// The registries of one kind of entity: its temporal and its constant
/// properties, the layers and the node types.
#[derive(Debug, PartialEq, Eq)]
pub struct Meta {
    meta_prop_temporal: PropMapper,
    meta_prop_constant: PropMapper,
    meta_layer: DictMapper,
    meta_node_type: DictMapper,
}

impl View for Meta {
    type V = MetaView;

    open spec fn view(&self) -> MetaView {
        MetaView {
            layers: self.layers(),
            node_types: self.node_types(),
            temporal_names: self.prop_names(false),
            temporal_dtypes: self.prop_dtypes(false),
            constant_names: self.prop_names(true),
            constant_dtypes: self.prop_dtypes(true),
        }
    }
}

impl Meta {
    /// The layer names, by layer id.
    pub closed spec fn layers(&self) -> Seq<Seq<char>> {
        self.meta_layer@
    }

    /// The node type names, by type id.
    pub closed spec fn node_types(&self) -> Seq<Seq<char>> {
        self.meta_node_type@
    }

    /// The names of the properties of one sort, by property id.
    pub closed spec fn prop_names(&self, is_static: bool) -> Seq<Seq<char>> {
        if is_static {
            self.meta_prop_constant.names()
        } else {
            self.meta_prop_temporal.names()
        }
    }

    /// The declared kinds of the properties of one sort, by property id.
    pub closed spec fn prop_dtypes(&self, is_static: bool) -> Seq<PropType> {
        if is_static {
            self.meta_prop_constant.dtypes()
        } else {
            self.meta_prop_temporal.dtypes()
        }
    }

    /// Names are distinct, every property has a kind, and the ids `0` of
    /// layers and node types belong to the default name.
    pub closed spec fn wf(&self) -> bool {
        &&& self.meta_prop_temporal.wf()
        &&& self.meta_prop_constant.wf()
        &&& self.meta_layer.wf()
        &&& self.meta_node_type.wf()
        &&& self.meta_layer@.len() > 0
        &&& self.meta_layer@[0] == default_name()
        &&& self.meta_node_type@.len() > 0
        &&& self.meta_node_type@[0] == default_name()
    }

    /// What well-formedness says of the registries.
    pub proof fn lemma_wf(&self)
        requires
            self.wf(),
        ensures
            self.layers().no_duplicates(),
            self.node_types().no_duplicates(),
            self.layers().len() > 0 && self.layers()[0] == default_name(),
            self.node_types().len() > 0 && self.node_types()[0] == default_name(),
            forall|b: bool|
                self.prop_names(b).no_duplicates() && self.prop_names(b).len() == self.prop_dtypes(
                    b,
                ).len(),
    {
    }

    /// The registries with nothing but the default layer and the default
    /// node type.
    pub fn new() -> (r: Meta)
        ensures
            r.wf(),
            r.layers() == seq![default_name()],
            r.node_types() == seq![default_name()],
            forall|b: bool| r.prop_names(b).len() == 0 && r.prop_dtypes(b).len() == 0,
    {
        let mut meta_layer = DictMapper::new();
        meta_layer.get_or_create_id("_default");
        let mut meta_node_type = DictMapper::new();
        meta_node_type.get_or_create_id("_default");
        let r = Meta {
            meta_prop_temporal: PropMapper::new(),
            meta_prop_constant: PropMapper::new(),
            meta_layer,
            meta_node_type,
        };
        assert(r.layers() =~= seq![default_name()]);
        assert(r.node_types() =~= seq![default_name()]);
        r
    }

    /// The id of the property `prop` of kind `dtype`; constant properties
    /// and temporal ones are numbered apart.
    ///
    /// A new name is registered with that kind and gets the next free id.
    /// A known name keeps its id; if it was declared with another kind the
    /// call fails and the registries stay as they are.
    pub fn resolve_prop_id(&mut self, prop: &str, dtype: PropType, is_static: bool) -> (r: Result<
        usize,
        GraphError,
    >)
        requires
            old(self).wf(),
        ensures
            final(self).wf(),
            r is Ok <==> old(self)@.admits(prop@, dtype, is_static),
            r is Ok ==> final(self)@ == old(self)@.with_prop(prop@, dtype, is_static),
            r is Err ==> final(self)@ == old(self)@,
            final(self).layers() == old(self).layers(),
            final(self).node_types() == old(self).node_types(),
            final(self).prop_names(!is_static) == old(self).prop_names(!is_static),
            final(self).prop_dtypes(!is_static) == old(self).prop_dtypes(!is_static),
            r is Ok <==> (!old(self).prop_names(is_static).contains(prop@) || old(self).prop_dtypes(
                is_static,
            )[old(self).prop_names(is_static).index_of(prop@)] == dtype),
            r matches Ok(id) ==> id == resolved_id(old(self).prop_names(is_static), prop@) && final(self).prop_names(is_static) == with_name(old(self).prop_names(is_static), prop@) && id
                < final(self).prop_dtypes(is_static).len() && final(self).prop_dtypes(
                is_static,
            )[id as int] == dtype,
            r matches Err(e) ==> final(self).prop_names(is_static) == old(self).prop_names(
                is_static,
            ) && final(self).prop_dtypes(is_static) == old(self).prop_dtypes(is_static) && (
            e matches GraphError::PropertyTypeError { name: n, expected, actual } && n@ == prop@
                && expected == old(self).prop_dtypes(is_static)[old(self).prop_names(
                is_static,
            ).index_of(prop@)] && actual == dtype),
    {
        proof {
            lemma_with_name(self.prop_names(is_static), prop@);
        }
        if is_static {
            self.meta_prop_constant.get_or_create_and_validate(prop, dtype)
        } else {
            self.meta_prop_temporal.get_or_create_and_validate(prop, dtype)
        }
    }

    /// The id of the property `name` of one sort, if it is registered.
    pub fn get_prop_id(&self, name: &str, is_static: bool) -> (r: Option<usize>)
        requires
            self.wf(),
        ensures
            r == id_of(self.prop_names(is_static), name@),
    {
        if is_static {
            self.meta_prop_constant.get_id(name)
        } else {
            self.meta_prop_temporal.get_id(name)
        }
    }

    /// The name of the property `prop_id` of one sort.
    pub fn get_prop_name(&self, prop_id: usize, is_static: bool) -> (r: Option<&String>)
        ensures
            match r {
                Some(s) => prop_id < self.prop_names(is_static).len() && s@ == self.prop_names(
                    is_static,
                )[prop_id as int],
                None => prop_id >= self.prop_names(is_static).len(),
            },
    {
        if is_static {
            self.meta_prop_constant.get_name(prop_id)
        } else {
            self.meta_prop_temporal.get_name(prop_id)
        }
    }

    /// The declared kind of the property `prop_id` of one sort.
    pub fn get_prop_dtype(&self, prop_id: usize, is_static: bool) -> (r: Option<PropType>)
        ensures
            r == if prop_id < self.prop_dtypes(is_static).len() {
                Some(self.prop_dtypes(is_static)[prop_id as int])
            } else {
                None
            },
    {
        if is_static {
            self.meta_prop_constant.get_dtype(prop_id)
        } else {
            self.meta_prop_temporal.get_dtype(prop_id)
        }
    }

    /// The id of the layer `name`; a new name gets the next free id.
    pub fn get_or_create_layer_id(&mut self, name: &str) -> (id: usize)
        requires
            old(self).wf(),
        ensures
            final(self).wf(),
            final(self).layers() == with_name(old(self).layers(), name@),
            final(self)@ == (MetaView { layers: with_name(old(self)@.layers, name@), ..old(self)@ }),
            id == resolved_id(old(self).layers(), name@),
            id < final(self).layers().len(),
            final(self).node_types() == old(self).node_types(),
            forall|b: bool|
                final(self).prop_names(b) == old(self).prop_names(b) && final(self).prop_dtypes(b)
                    == old(self).prop_dtypes(b),
    {
        proof {
            lemma_with_name(self.meta_layer@, name@);
            assert(self.meta_layer@.contains(self.meta_layer@[0]));
        }
        self.meta_layer.get_or_create_id(name)
    }

    /// The id of the layer `name`, if it is registered.
    pub fn get_layer_id(&self, name: &str) -> (r: Option<usize>)
        requires
            self.wf(),
        ensures
            r == id_of(self.layers(), name@),
            r matches Some(id) ==> id < self.layers().len() && self.layers()[id as int] == name@,
            r is None ==> !self.layers().contains(name@),
    {
        self.meta_layer.get_id(name)
    }

    /// The name of the layer `id`.
    pub fn get_layer_name_by_id(&self, id: usize) -> (r: Option<&String>)
        ensures
            match r {
                Some(s) => id < self.layers().len() && s@ == self.layers()[id as int],
                None => id >= self.layers().len(),
            },
    {
        self.meta_layer.get_name(id)
    }

    /// The number of layers that are registered.
    pub fn num_layers(&self) -> (n: usize)
        ensures
            n == self.layers().len(),
    {
        self.meta_layer.len()
    }

    /// The id of the node type `name`; a new name gets the next free id.
    pub fn get_or_create_node_type_id(&mut self, name: &str) -> (id: usize)
        requires
            old(self).wf(),
        ensures
            final(self).wf(),
            final(self).node_types() == with_name(old(self).node_types(), name@),
            final(self)@ == (MetaView {
                node_types: with_name(old(self)@.node_types, name@),
                ..old(self)@
            }),
            id == resolved_id(old(self).node_types(), name@),
            id < final(self).node_types().len(),
            final(self).layers() == old(self).layers(),
            forall|b: bool|
                final(self).prop_names(b) == old(self).prop_names(b) && final(self).prop_dtypes(b)
                    == old(self).prop_dtypes(b),
    {
        proof {
            lemma_with_name(self.meta_node_type@, name@);
            assert(self.meta_node_type@.contains(self.meta_node_type@[0]));
        }
        self.meta_node_type.get_or_create_id(name)
    }

    /// The id of the node type `name`, if it is registered.
    pub fn get_node_type_id(&self, name: &str) -> (r: Option<usize>)
        requires
            self.wf(),
        ensures
            r == id_of(self.node_types(), name@),
    {
        self.meta_node_type.get_id(name)
    }

    /// The name of the node type `id`.
    pub fn get_node_type_name_by_id(&self, id: usize) -> (r: Option<&String>)
        ensures
            match r {
                Some(s) => id < self.node_types().len() && s@ == self.node_types()[id as int],
                None => id >= self.node_types().len(),
            },
    {
        self.meta_node_type.get_name(id)
    }
}

} // verus!
