//! Layers and their prim specs.

use crate::doc::Specifier;
use crate::fields::{
    field_ref, fields_view, get_field, lemma_place_of_unique, named, with_named, FieldEntry,
    FieldValue, FieldView,
};
use crate::interner::TokenId;
use crate::path::PathId;
use crate::prim_index::LayerId;
use crate::property::{properties_view, PropertyEntry, PropertyView};
use crate::stage::sources::order_option;
use vstd::prelude::*;

verus! {

/// A reference to a prim of a layer.
#[derive(Clone, Copy, Debug, PartialEq, Eq, Structural)]
pub struct Reference {
    pub layer: LayerId,
    pub prim: PathId,
}

impl Reference {
    /// The prim `prim` of the layer `layer`.
    pub fn new(layer: LayerId, prim: PathId) -> (out: Reference)
        ensures
            out == (Reference { layer, prim }),
    {
        Reference { layer, prim }
    }
}

/// What a layer says of a prim.
#[derive(Debug)]
pub struct PrimSpec {
    pub specifier: Option<Specifier>,
    /// The name of the prim's type.
    pub type_label: Option<TokenId>,
    pub active: Option<bool>,
    pub instanceable: Option<bool>,
    /// The order of the prim's children.
    pub prim_order: Option<Vec<TokenId>>,
    /// The order of the prim's properties.
    pub property_order: Option<Vec<TokenId>>,
    pub fields: Vec<FieldEntry>,
    pub properties: Vec<PropertyEntry>,
    /// The names of the children, in the order they are authored.
    pub authored_children: Vec<TokenId>,
    /// The explicit list of references, if there is one.
    pub references: Option<Vec<Reference>>,
}

/// The mathematical value of a [`PrimSpec`].
#[verifier::ext_equal]
pub struct SpecView {
    pub specifier: Option<Specifier>,
    pub type_label: Option<TokenId>,
    pub active: Option<bool>,
    pub instanceable: Option<bool>,
    pub prim_order: Option<Seq<TokenId>>,
    pub property_order: Option<Seq<TokenId>>,
    pub fields: Seq<(TokenId, FieldView)>,
    pub properties: Seq<(TokenId, PropertyView)>,
    pub authored_children: Seq<TokenId>,
    pub references: Option<Seq<Reference>>,
}

impl View for PrimSpec {
    type V = SpecView;

    open spec fn view(&self) -> SpecView {
        SpecView {
            specifier: self.specifier,
            type_label: self.type_label,
            active: self.active,
            instanceable: self.instanceable,
            prim_order: order_option(self.prim_order),
            property_order: order_option(self.property_order),
            fields: fields_view(self.fields@),
            properties: properties_view(self.properties@),
            authored_children: self.authored_children@,
            references: match self.references {
                Some(references) => Some(references@),
                None => None,
            },
        }
    }
}

/// A spec that says nothing but its specifier.
pub open spec fn bare_spec(specifier: Option<Specifier>) -> SpecView {
    SpecView {
        specifier,
        type_label: None,
        active: None,
        instanceable: None,
        prim_order: None,
        property_order: None,
        fields: seq![],
        properties: seq![],
        authored_children: seq![],
        references: None,
    }
}

impl PrimSpec {
    /// A spec that says nothing but its specifier.
    pub fn bare(specifier: Option<Specifier>) -> (out: PrimSpec)
        ensures
            out@ == bare_spec(specifier),
    {
        let out = PrimSpec {
            specifier,
            type_label: None,
            active: None,
            instanceable: None,
            prim_order: None,
            property_order: None,
            fields: Vec::new(),
            properties: Vec::new(),
            authored_children: Vec::new(),
            references: None,
        };
        assert(out@ =~= bare_spec(specifier));
        out
    }

    /// The field named `name`.
    pub fn field(&self, name: TokenId) -> (value: Option<&FieldValue>)
        ensures
            field_ref(value) == named(self@.fields, name),
    {
        get_field(&self.fields, &name)
    }
}

/// A layer: its metadata, and what it says of each prim.
#[derive(Debug)]
pub struct Layer {
    pub id: LayerId,
    pub default_prim: Option<TokenId>,
    pub metadata: Vec<FieldEntry>,
    pub prims: Vec<(PathId, PrimSpec)>,
}

/// The mathematical value of a [`Layer`].
#[verifier::ext_equal]
pub struct LayerView {
    pub id: LayerId,
    pub default_prim: Option<TokenId>,
    pub metadata: Seq<(TokenId, FieldView)>,
    pub prims: Seq<(PathId, SpecView)>,
}

/// The paths and contents of a list of specs.
pub open spec fn specs_view(prims: Seq<(PathId, PrimSpec)>) -> Seq<(PathId, SpecView)> {
    prims.map_values(|p: (PathId, PrimSpec)| (p.0, p.1@))
}

impl View for Layer {
    type V = LayerView;

    open spec fn view(&self) -> LayerView {
        LayerView {
            id: self.id,
            default_prim: self.default_prim,
            metadata: fields_view(self.metadata@),
            prims: specs_view(self.prims@),
        }
    }
}

/// The place of the spec at `path`, or the length.
fn spec_place(prims: &Vec<(PathId, PrimSpec)>, path: PathId) -> (at: usize)
    ensures
        at == crate::fields::place_of(specs_view(prims@), path, 0),
        at <= prims@.len(),
{
    let ghost all = specs_view(prims@);
    let mut i: usize = 0;
    while i < prims.len()
        invariant
            i <= prims@.len(),
            all == specs_view(prims@),
            forall|k: int| 0 <= k < i ==> (#[trigger] all[k]).0 != path,
        decreases prims@.len() - i,
    {
        if prims[i].0 == path {
            proof {
                lemma_place_of_unique(all, path, i as int);
            }
            return i;
        }
        i = i + 1;
    }
    proof {
        lemma_place_of_unique(all, path, i as int);
    }
    i
}

/// Sets the spec at `path`.
pub fn set_spec(prims: &mut Vec<(PathId, PrimSpec)>, path: PathId, spec: PrimSpec)
    ensures
        specs_view(final(prims)@) == with_named(specs_view(old(prims)@), path, spec@),
{
    let ghost before = specs_view(prims@);
    let ghost had = prims@;
    let at = spec_place(prims, path);
    proof {
        crate::fields::lemma_place_of(before, path, 0);
    }
    if at < prims.len() {
        prims.set(at, (path, spec));
        assert(specs_view(prims@) =~= before.update(at as int, (path, spec@)));
    } else {
        prims.push((path, spec));
        assert(specs_view(prims@) =~= before.push((path, spec@)));
    }
}

impl Layer {
    /// A layer that says nothing.
    pub fn new(id: LayerId) -> (out: Layer)
        ensures
            out@ == (LayerView { id, default_prim: None, metadata: seq![], prims: seq![] }),
    {
        let out = Layer { id, default_prim: None, metadata: Vec::new(), prims: Vec::new() };
        assert(out@ =~= LayerView { id, default_prim: None, metadata: seq![], prims: seq![] });
        out
    }

    /// The spec of the prim at `path`.
    pub fn prim(&self, path: PathId) -> (out: Option<&PrimSpec>)
        ensures
            (match out {
                Some(spec) => Some(spec@),
                None => None,
            }) == named(self@.prims, path),
    {
        let at = spec_place(&self.prims, path);
        if at < self.prims.len() {
            proof {
                crate::fields::lemma_place_of(self@.prims, path, 0);
                assert(self@.prims[at as int].1 == self.prims@[at as int].1@);
            }
            Some(&self.prims[at].1)
        } else {
            None
        }
    }

    /// Sets the spec of the prim at `path`.
    pub fn insert_prim(&mut self, path: PathId, spec: PrimSpec)
        ensures
            final(self)@ == (LayerView {
                prims: with_named(old(self)@.prims, path, spec@),
                ..old(self)@
            }),
    {
        set_spec(&mut self.prims, path, spec);
    }
}

} // verus!
