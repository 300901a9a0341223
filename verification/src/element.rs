//! Elements: the payload carried by every tree node.

use vstd::prelude::*;

use crate::style::{ComputedStyle, StyleRule};
use crate::text::{split_whitespace, split_ws};

verus! {

/// The element kind at the root of every document tree.
#[derive(Clone, Copy, PartialEq, Eq, Structural, Debug)]
pub struct RootElement;

/// The one leaf element kind recognised inside `Body`.
#[derive(Clone, Copy, PartialEq, Eq, Structural, Debug)]
pub struct UnstyledElement;

/// The tagged element variants.
#[derive(Clone, Copy, PartialEq, Eq, Structural, Debug)]
pub enum ElementData {
    Root(RootElement),
    Unstyled(UnstyledElement),
}

/// A raw attribute value as written in the markup: either a literal, or a
/// dynamic-expression source to be evaluated by an external engine.
///
/// `up_to_date` is the staleness flag for cached evaluation state; it is
/// transient and not persisted.
#[derive(Debug)]
pub enum RawAttributeValue {
    Raw { value: String, up_to_date: bool },
    Script { script: String, up_to_date: bool },
}

/// The raw `class` / `id` / `style` attributes of an element.
#[derive(Debug)]
pub struct RawElementAttributes {
    pub class: Option<RawAttributeValue>,
    pub id: Option<RawAttributeValue>,
    pub style: Option<RawAttributeValue>,
}

impl RawElementAttributes {
    /// No attributes at all.
    pub fn empty() -> (r: RawElementAttributes)
        ensures
            r.class is None,
            r.id is None,
            r.style is None,
    {
        RawElementAttributes { class: None, id: None, style: None }
    }
}

/// One element: its kind, raw attributes, effective classes and id, the
/// legacy per-element rule list, and the computed-style snapshot.
#[derive(Debug)]
pub struct Element {
    pub data: ElementData,
    pub raw_attributes: RawElementAttributes,
    pub classes: Vec<String>,
    pub id: Option<String>,
    pub style: Vec<StyleRule>,
    pub computed: ComputedStyle,
}

/// The local name of an element kind, as matched by type selectors.
pub open spec fn spec_local_name(d: ElementData) -> Seq<char> {
    match d {
        ElementData::Root(_) => "#root"@,
        ElementData::Unstyled(_) => "Unstyled"@,
    }
}

/// The effective class list after an attribute refresh: a literal is
/// whitespace-split, a dynamic expression keeps the previous list until its
/// evaluation is applied, a missing attribute clears it.
pub open spec fn post_classes(raw: Option<RawAttributeValue>, prev: Seq<Seq<char>>) -> Seq<
    Seq<char>,
> {
    match raw {
        Some(RawAttributeValue::Raw { value, .. }) => split_ws(value@),
        Some(RawAttributeValue::Script { .. }) => prev,
        None => Seq::empty(),
    }
}

/// The effective id after an attribute refresh, under the same policy as
/// [`post_classes`].
pub open spec fn post_id(raw: Option<RawAttributeValue>, prev: Option<Seq<char>>) -> Option<
    Seq<char>,
> {
    match raw {
        Some(RawAttributeValue::Raw { value, .. }) => Some(value@),
        Some(RawAttributeValue::Script { .. }) => prev,
        None => None,
    }
}

/// The view of an element's id.
pub open spec fn id_view(o: Option<String>) -> Option<Seq<char>> {
    match o {
        Some(s) => Some(s@),
        None => None,
    }
}

impl Element {
    /// A fresh element of kind `data` carrying raw attributes `attrs`: no
    /// effective classes or id yet, no rules, initial computed style.
    pub fn new(data: ElementData, attrs: RawElementAttributes) -> (r: Element)
        ensures
            r.data == data,
            r.raw_attributes == attrs,
            r.classes@.len() == 0,
            r.id is None,
            r.style@.len() == 0,
            r.computed == ComputedStyle::initial(),
    {
        Element {
            data,
            raw_attributes: attrs,
            classes: Vec::new(),
            id: None,
            style: Vec::new(),
            computed: ComputedStyle::default(),
        }
    }

    /// The local name matched by type selectors: `Unstyled` for leaf
    /// elements, `#root` (unreachable from selector syntax) for the root.
    pub fn get_local_name(&self) -> (r: &'static str)
        ensures
            r@ == spec_local_name(self.data),
    {
        match self.data {
            ElementData::Root(..) => "#root",
            ElementData::Unstyled(..) => "Unstyled",
        }
    }

    /// Elements have no namespace.
    pub fn get_namespace(&self) -> (r: Option<&'static str>)
        ensures
            r is None,
    {
        None
    }

    /// Re-derives the effective classes and id from literal raw attributes:
    /// a literal `class` is whitespace-split into the class list, a literal
    /// `id` is taken whole, and a missing attribute clears the field.
    /// Dynamic-expression attributes are left for [`Element::apply_class_values`]
    /// and [`Element::apply_id_value`] to fill once evaluated.
    pub fn refresh_plain_attributes(&mut self)
        ensures
            final(self).data == old(self).data,
            final(self).raw_attributes == old(self).raw_attributes,
            final(self).style == old(self).style,
            final(self).computed == old(self).computed,
            final(self).classes.deep_view() == post_classes(
                old(self).raw_attributes.class,
                old(self).classes.deep_view(),
            ),
            id_view(final(self).id) == post_id(
                old(self).raw_attributes.id,
                id_view(old(self).id),
            ),
            match old(self).raw_attributes.class {
                Some(RawAttributeValue::Script { .. }) => final(self).classes == old(self).classes,
                _ => true,
            },
            match old(self).raw_attributes.id {
                Some(RawAttributeValue::Script { .. }) => final(self).id == old(self).id,
                _ => true,
            },
    {
        match &self.raw_attributes.class {
            Some(RawAttributeValue::Raw { value, .. }) => {
                let cs = split_whitespace(value.as_str());
                self.classes = cs;
            },
            Some(RawAttributeValue::Script { .. }) => {},
            None => {
                self.classes = Vec::new();
                proof {
                    assert(self.classes.deep_view() =~= Seq::<Seq<char>>::empty());
                }
            },
        }
        match &self.raw_attributes.id {
            Some(RawAttributeValue::Raw { value, .. }) => {
                let v = value.clone();
                self.id = Some(v);
            },
            Some(RawAttributeValue::Script { .. }) => {},
            None => {
                self.id = None;
            },
        }
    }

    /// Installs the class values an external expression evaluation handed
    /// back for this element's dynamic `class` attribute.
    pub fn apply_class_values(&mut self, values: Vec<String>)
        ensures
            final(self).classes == values,
            final(self).data == old(self).data,
            final(self).raw_attributes == old(self).raw_attributes,
            final(self).id == old(self).id,
            final(self).style == old(self).style,
            final(self).computed == old(self).computed,
    {
        self.classes = values;
    }

    /// Installs the id value an external expression evaluation handed back
    /// for this element's dynamic `id` attribute.
    pub fn apply_id_value(&mut self, value: String)
        ensures
            final(self).id == Some(value),
            final(self).data == old(self).data,
            final(self).raw_attributes == old(self).raw_attributes,
            final(self).classes == old(self).classes,
            final(self).style == old(self).style,
            final(self).computed == old(self).computed,
    {
        self.id = Some(value);
    }
}

} // verus!
