//! The document compiler: a recursive state machine over markup events
//! that builds the element tree, dispatches stylesheet sources, and emits
//! structured diagnostics.
//!
//! The structural contexts nest as `Root → Frame → { Head → Style*, Body →
//! UiElementTree }`. Violations of the structure itself (a second `Frame`,
//! `Head` or `Body`, a missing `Body`, an unrecognised element, the
//! reserved `style` attribute) abort the compile outright; other unexpected
//! content is recorded as an `Error`-level diagnostic and aborts too, but
//! through the diagnostic path.

use vstd::prelude::*;

use crate::diag::{Diagnostic, DiagnosticKind, Level, Reporter};
use crate::document::CompiledDocument;
use crate::element::{
    Element, ElementData, RawAttributeValue, RawElementAttributes, RootElement, UnstyledElement,
};
use crate::markup::{tokenize, MarkupEvent};
use crate::style::StyleSheet;
use crate::style_src::StyleJob;
use crate::text::{chars_vec, split_whitespace, str_eq};
use crate::tree::{Node, Tree};

verus! {

/// A structural violation that aborts compilation outright.
#[derive(Debug)]
pub enum StructureViolation {
    DuplicateFrame,
    DuplicateHead,
    DuplicateBody,
    MissingBody,
    UnknownElement { el: String },
    UnsupportedStyleAttribute,
    MissingStyleSource,
}

/// Why a compile stopped early.
#[derive(Debug)]
pub enum CompileFailure {
    /// An unrecoverable structural violation.
    Structure(StructureViolation),
    /// An `Error`-level diagnostic was recorded; the reporter holds it.
    Reported,
}

/// A failed compile: the failure, and the reporter with everything
/// recorded up to it.
#[derive(Debug)]
pub struct CompileAborted {
    pub failure: CompileFailure,
    pub reporter: Reporter,
}

/// A structurally complete compile: the tree and the stylesheet built so
/// far, the diagnostics, and the stylesheet sources that still need
/// outside work (fetching or preprocessing) before the checkpoint.
#[derive(Debug)]
pub struct Compilation {
    pub tree: Tree<Element>,
    pub stylesheet: StyleSheet,
    pub reporter: Reporter,
    pub jobs: Vec<StyleJob>,
    pub jobs_done: usize,
    pub base_url: String,
    pub file_id: usize,
}

/// Whether a stray event passes without note: comments always, text when
/// it is entirely whitespace.
pub open spec fn event_is_benign(ev: MarkupEvent) -> bool {
    match ev {
        MarkupEvent::Comment { .. } => true,
        MarkupEvent::Text { text, .. } => forall|k: int|
            0 <= k < text@.len() ==> crate::text::is_ws(text@[k]),
        _ => false,
    }
}

/// The diagnostic kind a non-benign stray event is reported as.
pub open spec fn event_diagnostic(ev: MarkupEvent) -> DiagnosticKind {
    match ev {
        MarkupEvent::Text { .. } => DiagnosticKind::UnexpectedText,
        MarkupEvent::CData { .. } => DiagnosticKind::UnexpectedCData,
        MarkupEvent::Decl { .. } => DiagnosticKind::UnexpectedDecl,
        MarkupEvent::PI { .. } => DiagnosticKind::UnexpectedPI,
        MarkupEvent::DocType { .. } => DiagnosticKind::UnexpectedDocType,
        MarkupEvent::Eof { .. } => DiagnosticKind::UnexpectedEof,
        MarkupEvent::Malformed { detail, .. } => DiagnosticKind::ParseError(detail),
        MarkupEvent::Start { name, .. } => DiagnosticKind::InvalidElement { el: name },
        MarkupEvent::Empty { name, .. } => DiagnosticKind::InvalidElement { el: name },
        MarkupEvent::End { name, .. } => DiagnosticKind::InvalidElement { el: name },
        MarkupEvent::Comment { .. } => DiagnosticKind::UnexpectedText,
    }
}

/// The position an event anchors its diagnostics to.
pub open spec fn event_pos(ev: MarkupEvent) -> usize {
    match ev {
        MarkupEvent::Start { pos, .. } => pos,
        MarkupEvent::Empty { pos, .. } => pos,
        MarkupEvent::End { pos, .. } => pos,
        MarkupEvent::Text { pos, .. } => pos,
        MarkupEvent::CData { pos } => pos,
        MarkupEvent::Decl { pos } => pos,
        MarkupEvent::PI { pos } => pos,
        MarkupEvent::DocType { pos } => pos,
        MarkupEvent::Comment { pos } => pos,
        MarkupEvent::Eof { pos } => pos,
        MarkupEvent::Malformed { pos, .. } => pos,
    }
}

/// The value of the last attribute named `key`, if any.
pub open spec fn spec_attr_last(attrs: Seq<(String, String)>, key: Seq<char>) -> Option<Seq<char>>
    decreases attrs.len(),
{
    if attrs.len() == 0 {
        None
    } else if attrs.last().0@ == key {
        Some(attrs.last().1@)
    } else {
        spec_attr_last(attrs.drop_last(), key)
    }
}

/// An attribute that occurs anywhere is found by the scan.
pub proof fn lemma_attr_last_present(attrs: Seq<(String, String)>, key: Seq<char>, j: int)
    requires
        0 <= j < attrs.len(),
        attrs[j].0@ == key,
    ensures
        spec_attr_last(attrs, key) is Some,
    decreases attrs.len(),
{
    if attrs.last().0@ == key {
    } else {
        assert(j < attrs.len() - 1);
        assert(attrs.drop_last()[j] == attrs[j]);
        lemma_attr_last_present(attrs.drop_last(), key, j);
    }
}

/// A structural violation, as plain values.
pub enum ViolationV {
    DuplicateFrame,
    DuplicateHead,
    DuplicateBody,
    MissingBody,
    UnknownElement { el: Seq<char> },
    UnsupportedStyleAttribute,
    MissingStyleSource,
}

/// Why a compile stops, as plain values.
pub enum FailV {
    Structure(ViolationV),
    Reported,
}

/// The view of a compile failure.
pub open spec fn fail_view(f: CompileFailure) -> FailV {
    match f {
        CompileFailure::Structure(v) => FailV::Structure(
            match v {
                StructureViolation::DuplicateFrame => ViolationV::DuplicateFrame,
                StructureViolation::DuplicateHead => ViolationV::DuplicateHead,
                StructureViolation::DuplicateBody => ViolationV::DuplicateBody,
                StructureViolation::MissingBody => ViolationV::MissingBody,
                StructureViolation::UnknownElement { el } => ViolationV::UnknownElement {
                    el: el@,
                },
                StructureViolation::UnsupportedStyleAttribute
                    => ViolationV::UnsupportedStyleAttribute,
                StructureViolation::MissingStyleSource => ViolationV::MissingStyleSource,
            },
        ),
        CompileFailure::Reported => FailV::Reported,
    }
}

/// What one structural pass appends — elements as `(parent index, raw
/// attribute list)`, stylesheet rules, deferred style jobs — and the event
/// index where it ends.
pub struct PassOut {
    pub idx: int,
    pub nodes: Seq<(int, Seq<(String, String)>)>,
    pub rules: Seq<crate::style::RuleView>,
    pub jobs: Seq<crate::style_src::JobV>,
}

/// The outcome of a structural pass: what it appends, or how it fails.
pub enum PassRes {
    Done(PassOut),
    Fail(FailV),
}

/// An empty pass outcome at `idx`.
pub open spec fn pass_done_at(idx: int) -> PassRes {
    PassRes::Done(
        PassOut { idx, nodes: Seq::empty(), rules: Seq::empty(), jobs: Seq::empty() },
    )
}

/// The keys of the attributes an `Unstyled` element ignores with a note:
/// everything but `class`, `id` and the reserved `style`.
pub open spec fn spec_unknown_attrs(attrs: Seq<(String, String)>) -> Seq<Seq<char>>
    decreases attrs.len(),
{
    if attrs.len() == 0 {
        Seq::empty()
    } else {
        let rest = spec_unknown_attrs(attrs.drop_last());
        let k = attrs.last().0@;
        if k == "class"@ || k == "id"@ || k == "style"@ {
            rest
        } else {
            rest.push(k)
        }
    }
}

/// The element a UI node is built from: `Unstyled`, its classes split from
/// the literal `class` attribute, its id from the literal `id` attribute,
/// unknown attributes ignored, no reserved `style` attribute.
pub open spec fn unstyled_elem_ok(e: Element, attrs: Seq<(String, String)>) -> bool {
    &&& e.data == ElementData::Unstyled(UnstyledElement)
    &&& e.classes.deep_view() == (match spec_attr_last(attrs, "class"@) {
        Some(v) => crate::text::split_ws(v),
        None => Seq::<Seq<char>>::empty(),
    })
    &&& crate::element::id_view(e.id) == spec_attr_last(attrs, "id"@)
    &&& (match spec_attr_last(attrs, "class"@) {
        Some(v) => e.raw_attributes.class matches Some(RawAttributeValue::Raw { value, .. })
            && value@ == v,
        None => e.raw_attributes.class is None,
    })
    &&& (match spec_attr_last(attrs, "id"@) {
        Some(v) => e.raw_attributes.id matches Some(RawAttributeValue::Raw { value, .. })
            && value@ == v,
        None => e.raw_attributes.id is None,
    })
    &&& e.raw_attributes.style is None
    &&& e.style@.len() == 0
    &&& e.computed == crate::style::ComputedStyle::initial()
}

/// The outcome of one `Unstyled` element with attribute list `attrs`, its
/// content starting at `idx`, appended under `parent` in a tree of `len`
/// nodes.
pub open spec fn spec_unstyled_outcome(
    events: Seq<MarkupEvent>,
    idx: int,
    attrs: Seq<(String, String)>,
    parent: int,
    len: int,
    self_closing: bool,
) -> PassRes
    decreases events.len() - idx, 1int when 0 <= idx <= events.len()
{
    if spec_attr_last(attrs, "style"@) is Some {
        PassRes::Fail(FailV::Structure(ViolationV::UnsupportedStyleAttribute))
    } else if self_closing {
        PassRes::Done(
            PassOut {
                idx,
                nodes: seq![(parent, attrs)],
                rules: Seq::empty(),
                jobs: Seq::empty(),
            },
        )
    } else {
        match spec_ui_outcome(events, idx, len, len + 1) {
            PassRes::Done(o) => PassRes::Done(
                PassOut {
                    idx: o.idx,
                    nodes: seq![(parent, attrs)] + o.nodes,
                    rules: o.rules,
                    jobs: o.jobs,
                },
            ),
            PassRes::Fail(f) => PassRes::Fail(f),
        }
    }
}

/// The outcome of a UI-element context: children of `parent`, all
/// `Unstyled`, in a tree of `len` nodes.
pub open spec fn spec_ui_outcome(events: Seq<MarkupEvent>, idx: int, parent: int, len: int) -> PassRes
    decreases events.len() - idx, 0int when 0 <= idx <= events.len()
{
    if idx >= events.len() {
        pass_done_at(idx)
    } else {
        match events[idx] {
            MarkupEvent::Start { name, attrs, .. } => if name@ == "Unstyled"@ {
                match spec_unstyled_outcome(events, idx + 1, attrs@, parent, len, false) {
                    PassRes::Done(o) => if idx + 1 <= o.idx <= events.len() {
                        match spec_ui_outcome(events, o.idx, parent, len + o.nodes.len()) {
                            PassRes::Done(o2) => PassRes::Done(
                                PassOut {
                                    idx: o2.idx,
                                    nodes: o.nodes + o2.nodes,
                                    rules: o.rules + o2.rules,
                                    jobs: o.jobs + o2.jobs,
                                },
                            ),
                            PassRes::Fail(f) => PassRes::Fail(f),
                        }
                    } else {
                        PassRes::Fail(FailV::Reported)
                    },
                    PassRes::Fail(f) => PassRes::Fail(f),
                }
            } else {
                PassRes::Fail(FailV::Structure(ViolationV::UnknownElement { el: name@ }))
            },
            MarkupEvent::Empty { name, attrs, .. } => if name@ == "Unstyled"@ {
                match spec_unstyled_outcome(events, idx + 1, attrs@, parent, len, true) {
                    PassRes::Done(o) => if idx + 1 <= o.idx <= events.len() {
                        match spec_ui_outcome(events, o.idx, parent, len + o.nodes.len()) {
                            PassRes::Done(o2) => PassRes::Done(
                                PassOut {
                                    idx: o2.idx,
                                    nodes: o.nodes + o2.nodes,
                                    rules: o.rules + o2.rules,
                                    jobs: o.jobs + o2.jobs,
                                },
                            ),
                            PassRes::Fail(f) => PassRes::Fail(f),
                        }
                    } else {
                        PassRes::Fail(FailV::Reported)
                    },
                    PassRes::Fail(f) => PassRes::Fail(f),
                }
            } else {
                PassRes::Fail(FailV::Structure(ViolationV::UnknownElement { el: name@ }))
            },
            MarkupEvent::End { .. } => pass_done_at(idx + 1),
            ev => if event_is_benign(ev) {
                spec_ui_outcome(events, idx + 1, parent, len)
            } else {
                PassRes::Fail(FailV::Reported)
            },
        }
    }
}

/// A UI pass moves forward, and appends elements only.
pub proof fn lemma_ui_outcome_facts(events: Seq<MarkupEvent>, idx: int, parent: int, len: int)
    requires
        0 <= idx <= events.len(),
    ensures
        spec_ui_outcome(events, idx, parent, len) matches PassRes::Done(o) ==> idx <= o.idx
            <= events.len() && o.rules == Seq::<crate::style::RuleView>::empty() && o.jobs
            == Seq::<crate::style_src::JobV>::empty(),
    decreases events.len() - idx, 0int,
{
    if idx >= events.len() {
    } else {
        match events[idx] {
            MarkupEvent::Start { name, attrs, .. } => {
                lemma_unstyled_outcome_facts(events, idx + 1, attrs@, parent, len, false);
                match spec_unstyled_outcome(events, idx + 1, attrs@, parent, len, false) {
                    PassRes::Done(o) => {
                        if idx + 1 <= o.idx <= events.len() {
                            lemma_ui_outcome_facts(events, o.idx, parent, len + o.nodes.len());
                            assert(o.rules + Seq::<crate::style::RuleView>::empty() =~= o.rules);
                            assert(o.jobs + Seq::<crate::style_src::JobV>::empty() =~= o.jobs);
                        }
                    },
                    PassRes::Fail(_) => {},
                }
            },
            MarkupEvent::Empty { name, attrs, .. } => {
                lemma_unstyled_outcome_facts(events, idx + 1, attrs@, parent, len, true);
                match spec_unstyled_outcome(events, idx + 1, attrs@, parent, len, true) {
                    PassRes::Done(o) => {
                        if idx + 1 <= o.idx <= events.len() {
                            lemma_ui_outcome_facts(events, o.idx, parent, len + o.nodes.len());
                            assert(o.rules + Seq::<crate::style::RuleView>::empty() =~= o.rules);
                            assert(o.jobs + Seq::<crate::style_src::JobV>::empty() =~= o.jobs);
                        }
                    },
                    PassRes::Fail(_) => {},
                }
            },
            MarkupEvent::End { .. } => {},
            ev => {
                if event_is_benign(ev) {
                    lemma_ui_outcome_facts(events, idx + 1, parent, len);
                }
            },
        }
    }
}

/// An element pass moves forward, and appends elements only.
pub proof fn lemma_unstyled_outcome_facts(
    events: Seq<MarkupEvent>,
    idx: int,
    attrs: Seq<(String, String)>,
    parent: int,
    len: int,
    self_closing: bool,
)
    requires
        0 <= idx <= events.len(),
    ensures
        spec_unstyled_outcome(events, idx, attrs, parent, len, self_closing)
            matches PassRes::Done(o) ==> idx <= o.idx <= events.len() && o.rules == Seq::<
            crate::style::RuleView,
        >::empty() && o.jobs == Seq::<crate::style_src::JobV>::empty(),
    decreases events.len() - idx, 1int,
{
    if spec_attr_last(attrs, "style"@) is Some {
    } else if self_closing {
    } else {
        lemma_ui_outcome_facts(events, idx, len, len + 1);
    }
}

/// The outcome of the head context: zero or more `Style` elements up to the
/// closing tag.
pub open spec fn spec_head_outcome(events: Seq<MarkupEvent>, idx: int, base: Seq<char>) -> PassRes
    decreases events.len() - idx when 0 <= idx <= events.len()
{
    if idx >= events.len() {
        pass_done_at(idx)
    } else {
        match events[idx] {
            MarkupEvent::Start { name, attrs, .. } => if name@ == "Style"@ {
                match crate::style_src::spec_style_outcome(events, idx + 1, attrs@, false, base) {
                    PassRes::Done(o) => if idx + 1 <= o.idx <= events.len() {
                        match spec_head_outcome(events, o.idx, base) {
                            PassRes::Done(o2) => PassRes::Done(
                                PassOut {
                                    idx: o2.idx,
                                    nodes: Seq::empty(),
                                    rules: o.rules + o2.rules,
                                    jobs: o.jobs + o2.jobs,
                                },
                            ),
                            PassRes::Fail(f) => PassRes::Fail(f),
                        }
                    } else {
                        PassRes::Fail(FailV::Reported)
                    },
                    PassRes::Fail(f) => PassRes::Fail(f),
                }
            } else {
                PassRes::Fail(FailV::Structure(ViolationV::UnknownElement { el: name@ }))
            },
            MarkupEvent::Empty { name, attrs, .. } => if name@ == "Style"@ {
                match crate::style_src::spec_style_outcome(events, idx + 1, attrs@, true, base) {
                    PassRes::Done(o) => match spec_head_outcome(events, idx + 1, base) {
                        PassRes::Done(o2) => PassRes::Done(
                            PassOut {
                                idx: o2.idx,
                                nodes: Seq::empty(),
                                rules: o.rules + o2.rules,
                                jobs: o.jobs + o2.jobs,
                            },
                        ),
                        PassRes::Fail(f) => PassRes::Fail(f),
                    },
                    PassRes::Fail(f) => PassRes::Fail(f),
                }
            } else {
                PassRes::Fail(FailV::Structure(ViolationV::UnknownElement { el: name@ }))
            },
            MarkupEvent::End { .. } => pass_done_at(idx + 1),
            ev => if event_is_benign(ev) {
                spec_head_outcome(events, idx + 1, base)
            } else {
                PassRes::Fail(FailV::Reported)
            },
        }
    }
}

/// A head pass moves forward and appends no element.
pub proof fn lemma_head_outcome_facts(events: Seq<MarkupEvent>, idx: int, base: Seq<char>)
    requires
        0 <= idx <= events.len(),
    ensures
        spec_head_outcome(events, idx, base) matches PassRes::Done(o) ==> idx <= o.idx
            <= events.len() && o.nodes == Seq::<(int, Seq<(String, String)>)>::empty(),
    decreases events.len() - idx,
{
    if idx < events.len() {
        match events[idx] {
            MarkupEvent::Start { name, attrs, .. } => {
                match crate::style_src::spec_style_outcome(events, idx + 1, attrs@, false, base) {
                    PassRes::Done(o) => {
                        if idx + 1 <= o.idx <= events.len() {
                            lemma_head_outcome_facts(events, o.idx, base);
                        }
                    },
                    PassRes::Fail(_) => {},
                }
            },
            MarkupEvent::Empty { .. } => {
                lemma_head_outcome_facts(events, idx + 1, base);
            },
            MarkupEvent::End { .. } => {},
            ev => {
                if event_is_benign(ev) {
                    lemma_head_outcome_facts(events, idx + 1, base);
                }
            },
        }
    }
}

/// The outcome of the frame context: an optional unique `Head`, a mandatory
/// unique `Body`.
pub open spec fn spec_frame_outcome(
    events: Seq<MarkupEvent>,
    idx: int,
    len: int,
    base: Seq<char>,
    found_head: bool,
    found_body: bool,
) -> PassRes
    decreases events.len() - idx when 0 <= idx <= events.len()
{
    if idx >= events.len() {
        if found_body {
            pass_done_at(idx)
        } else {
            PassRes::Fail(FailV::Structure(ViolationV::MissingBody))
        }
    } else {
        match events[idx] {
            MarkupEvent::Start { name, .. } => if name@ == "Head"@ {
                if found_head {
                    PassRes::Fail(FailV::Structure(ViolationV::DuplicateHead))
                } else {
                    match spec_head_outcome(events, idx + 1, base) {
                        PassRes::Done(o) => if idx + 1 <= o.idx <= events.len() {
                            match spec_frame_outcome(events, o.idx, len, base, true, found_body) {
                                PassRes::Done(o2) => PassRes::Done(
                                    PassOut {
                                        idx: o2.idx,
                                        nodes: o.nodes + o2.nodes,
                                        rules: o.rules + o2.rules,
                                        jobs: o.jobs + o2.jobs,
                                    },
                                ),
                                PassRes::Fail(f) => PassRes::Fail(f),
                            }
                        } else {
                            PassRes::Fail(FailV::Reported)
                        },
                        PassRes::Fail(f) => PassRes::Fail(f),
                    }
                }
            } else if name@ == "Body"@ {
                if found_body {
                    PassRes::Fail(FailV::Structure(ViolationV::DuplicateBody))
                } else {
                    match spec_ui_outcome(events, idx + 1, 0, len) {
                        PassRes::Done(o) => if idx + 1 <= o.idx <= events.len() {
                            match spec_frame_outcome(
                                events,
                                o.idx,
                                len + o.nodes.len(),
                                base,
                                found_head,
                                true,
                            ) {
                                PassRes::Done(o2) => PassRes::Done(
                                    PassOut {
                                        idx: o2.idx,
                                        nodes: o.nodes + o2.nodes,
                                        rules: o.rules + o2.rules,
                                        jobs: o.jobs + o2.jobs,
                                    },
                                ),
                                PassRes::Fail(f) => PassRes::Fail(f),
                            }
                        } else {
                            PassRes::Fail(FailV::Reported)
                        },
                        PassRes::Fail(f) => PassRes::Fail(f),
                    }
                }
            } else {
                PassRes::Fail(FailV::Structure(ViolationV::UnknownElement { el: name@ }))
            },
            MarkupEvent::Empty { name, .. } => PassRes::Fail(
                FailV::Structure(ViolationV::UnknownElement { el: name@ }),
            ),
            MarkupEvent::End { .. } => if found_body {
                pass_done_at(idx + 1)
            } else {
                PassRes::Fail(FailV::Structure(ViolationV::MissingBody))
            },
            ev => if event_is_benign(ev) {
                spec_frame_outcome(events, idx + 1, len, base, found_head, found_body)
            } else {
                PassRes::Fail(FailV::Reported)
            },
        }
    }
}

/// The outcome of the root context: exactly one `Frame` element.
pub open spec fn spec_root_outcome(
    events: Seq<MarkupEvent>,
    idx: int,
    len: int,
    base: Seq<char>,
    found_frame: bool,
) -> PassRes
    decreases events.len() - idx when 0 <= idx <= events.len()
{
    if idx >= events.len() {
        pass_done_at(idx)
    } else {
        match events[idx] {
            MarkupEvent::Start { name, .. } => if name@ == "Frame"@ {
                if found_frame {
                    PassRes::Fail(FailV::Structure(ViolationV::DuplicateFrame))
                } else {
                    match spec_frame_outcome(events, idx + 1, len, base, false, false) {
                        PassRes::Done(o) => if idx + 1 <= o.idx <= events.len() {
                            match spec_root_outcome(events, o.idx, len + o.nodes.len(), base, true) {
                                PassRes::Done(o2) => PassRes::Done(
                                    PassOut {
                                        idx: o2.idx,
                                        nodes: o.nodes + o2.nodes,
                                        rules: o.rules + o2.rules,
                                        jobs: o.jobs + o2.jobs,
                                    },
                                ),
                                PassRes::Fail(f) => PassRes::Fail(f),
                            }
                        } else {
                            PassRes::Fail(FailV::Reported)
                        },
                        PassRes::Fail(f) => PassRes::Fail(f),
                    }
                }
            } else {
                PassRes::Fail(FailV::Structure(ViolationV::UnknownElement { el: name@ }))
            },
            MarkupEvent::Empty { name, .. } => PassRes::Fail(
                FailV::Structure(ViolationV::UnknownElement { el: name@ }),
            ),
            MarkupEvent::End { .. } => pass_done_at(idx + 1),
            MarkupEvent::Eof { .. } => pass_done_at(idx + 1),
            ev => if event_is_benign(ev) {
                spec_root_outcome(events, idx + 1, len, base, found_frame)
            } else {
                PassRes::Fail(FailV::Reported)
            },
        }
    }
}

impl Compilation {
    /// Internal consistency: the tree is well formed, the document's own
    /// source file is registered, and the job cursor is in range.
    pub open spec fn well_formed(&self) -> bool {
        &&& self.tree.well_formed()
        &&& self.file_id < self.reporter.files@.len()
        &&& self.jobs_done <= self.jobs@.len()
    }

    /// Records a diagnostic at `Error` level anchored at `pos` in the
    /// document file.
    fn report_error_at(&mut self, kind: DiagnosticKind, pos: usize)
        requires
            old(self).well_formed(),
        ensures
            final(self).well_formed(),
            final(self).tree == old(self).tree,
            final(self).stylesheet == old(self).stylesheet,
            final(self).jobs == old(self).jobs,
            final(self).jobs_done == old(self).jobs_done,
            final(self).file_id == old(self).file_id,
            final(self).base_url == old(self).base_url,
            final(self).reporter.files == old(self).reporter.files,
            final(self).reporter.diagnostics@ == old(self).reporter.diagnostics@.push(
                Diagnostic {
                    kind,
                    location: Some((old(self).file_id, pos)),
                    min_level: Level::Error,
                },
            ),
            crate::diag::has_blocking(final(self).reporter.diagnostics@),
    {
        let d = Diagnostic {
            kind,
            location: Some((self.file_id, pos)),
            min_level: Level::Error,
        };
        self.reporter.add_diagnostic(d);
        proof {
            let ds = self.reporter.diagnostics@;
            assert(crate::diag::is_blocking(ds[ds.len() - 1].min_level));
        }
    }

    /// Handles an event that no structural context expects: comments and
    /// all-whitespace text pass, everything else yields exactly one
    /// `Error`-level diagnostic of the matching kind at the event's
    /// position and aborts.
    fn handle_event(&mut self, ev: &MarkupEvent) -> (r: Result<(), ()>)
        requires
            old(self).well_formed(),
        ensures
            final(self).well_formed(),
            final(self).tree == old(self).tree,
            final(self).stylesheet == old(self).stylesheet,
            final(self).jobs == old(self).jobs,
            final(self).jobs_done == old(self).jobs_done,
            final(self).file_id == old(self).file_id,
            final(self).base_url == old(self).base_url,
            final(self).reporter.files == old(self).reporter.files,
            r is Ok <==> event_is_benign(*ev),
            event_is_benign(*ev) ==> final(self).reporter == old(self).reporter,
            !event_is_benign(*ev) ==> final(self).reporter.diagnostics@ == old(self).reporter.diagnostics@.push(
                Diagnostic {
                    kind: event_diagnostic(*ev),
                    location: Some((old(self).file_id, event_pos(*ev))),
                    min_level: Level::Error,
                },
            ),
            r is Err ==> crate::diag::has_blocking(final(self).reporter.diagnostics@),
    {
        match ev {
            MarkupEvent::Comment { .. } => Ok(()),
            MarkupEvent::Text { text, pos } => {
                if text_is_blank(text.as_str()) {
                    Ok(())
                } else {
                    self.report_error_at(DiagnosticKind::UnexpectedText, *pos);
                    Err(())
                }
            },
            MarkupEvent::CData { pos } => {
                self.report_error_at(DiagnosticKind::UnexpectedCData, *pos);
                Err(())
            },
            MarkupEvent::Decl { pos } => {
                self.report_error_at(DiagnosticKind::UnexpectedDecl, *pos);
                Err(())
            },
            MarkupEvent::PI { pos } => {
                self.report_error_at(DiagnosticKind::UnexpectedPI, *pos);
                Err(())
            },
            MarkupEvent::DocType { pos } => {
                self.report_error_at(DiagnosticKind::UnexpectedDocType, *pos);
                Err(())
            },
            MarkupEvent::Eof { pos } => {
                self.report_error_at(DiagnosticKind::UnexpectedEof, *pos);
                Err(())
            },
            MarkupEvent::Malformed { pos, detail } => {
                self.report_error_at(DiagnosticKind::ParseError(detail.clone()), *pos);
                Err(())
            },
            MarkupEvent::Start { name, pos, .. } => {
                self.report_error_at(DiagnosticKind::InvalidElement { el: name.clone() }, *pos);
                Err(())
            },
            MarkupEvent::Empty { name, pos, .. } => {
                self.report_error_at(DiagnosticKind::InvalidElement { el: name.clone() }, *pos);
                Err(())
            },
            MarkupEvent::End { name, pos } => {
                self.report_error_at(DiagnosticKind::InvalidElement { el: name.clone() }, *pos);
                Err(())
            },
        }
    }

    /// The root context: exactly one `Frame` element.
    #[verifier::rlimit(100)]
    #[verifier::spinoff_prover]
    pub fn compile_root(&mut self, events: &Vec<MarkupEvent>, idx: &mut usize) -> (r: Result<
        (),
        CompileFailure,
    >)
        requires
            old(self).well_formed(),
            *old(idx) <= events@.len(),
        ensures
            final(self).well_formed(),
            *old(idx) <= *final(idx) <= events@.len(),
            final(self).jobs_done == old(self).jobs_done,
            final(self).file_id == old(self).file_id,
            final(self).base_url == old(self).base_url,
            final(self).reporter.files == old(self).reporter.files,
            final(self).tree@.len() >= old(self).tree@.len(),
            forall|j: int|
                0 <= j < old(self).tree@.len() ==> #[trigger] final(self).tree@[j].data == old(self).tree@[j].data,
            forall|j: int|
                0 <= j < old(self).tree@.len() ==> #[trigger] final(self).tree@[j].parent == old(self).tree@[j].parent,
            r matches Err(CompileFailure::Reported) ==> crate::diag::has_blocking(
                final(self).reporter.diagnostics@,
            ),
            final(self).stylesheet.rules@.len() >= old(self).stylesheet.rules@.len(),
            forall|k: int|
                0 <= k < old(self).stylesheet.rules@.len() ==> final(self).stylesheet.rules@[k]
                    == old(self).stylesheet.rules@[k],
            final(self).jobs@.len() >= old(self).jobs@.len(),
            forall|k: int|
                0 <= k < old(self).jobs@.len() ==> final(self).jobs@[k] == old(self).jobs@[k],
            // The root context, under the structural grammar: the elements
            // appended (each with its parent and raw attributes), the
            // stylesheet rules and deferred jobs appended in encounter
            // order — or exactly how the pass fails.
            match spec_root_outcome(
                events@,
                *old(idx) as int,
                old(self).tree@.len() as int,
                old(self).base_url@,
                false,
            ) {
                PassRes::Done(o) => {
                    &&& r is Ok
                    &&& *final(idx) as int == o.idx
                    &&& final(self).tree@.len() == old(self).tree@.len() + o.nodes.len()
                    &&& (forall|j: int|
                        0 <= j < o.nodes.len() ==> {
                            let ni = #[trigger] final(self).tree@[old(self).tree@.len() + j];
                            &&& (ni.parent matches Some(p) && p.index as int == o.nodes[j].0)
                            &&& unstyled_elem_ok(ni.data, o.nodes[j].1)
                        })
                    &&& final(self).stylesheet.rules@.len() == old(
                        self,
                    ).stylesheet.rules@.len() + o.rules.len()
                    &&& crate::style::rules_view(
                        final(self).stylesheet.rules@.skip(
                            old(self).stylesheet.rules@.len() as int,
                        ),
                    ) == o.rules
                    &&& final(self).jobs@.len() == old(self).jobs@.len() + o.jobs.len()
                    &&& crate::style_src::jobs_view(
                        final(self).jobs@.skip(old(self).jobs@.len() as int),
                    ) == o.jobs
                },
                PassRes::Fail(fv) => r matches Err(f) && fail_view(f) == fv,
            },
        decreases events@.len() - *old(idx), 0int,
    {
        let ghost pin = *idx as int;
        let ghost len0 = self.tree@.len() as int;
        let ghost nr0 = self.stylesheet.rules@.len() as int;
        let ghost nj0 = self.jobs@.len() as int;
        let ghost mut accn: Seq<(int, Seq<(String, String)>)> = Seq::empty();
        let mut found_frame = false;
        proof {
            assert(self.stylesheet.rules@.skip(nr0) =~= Seq::<crate::style::StyleRule>::empty());
            assert(crate::style::rules_view(Seq::<crate::style::StyleRule>::empty()) =~= Seq::<
                crate::style::RuleView,
            >::empty());
            assert(self.jobs@.skip(nj0) =~= Seq::<crate::style_src::StyleJob>::empty());
            assert(crate::style_src::jobs_view(Seq::<crate::style_src::StyleJob>::empty())
                =~= Seq::<crate::style_src::JobV>::empty());
            match spec_root_outcome(events@, pin, len0, old(self).base_url@, false) {
                PassRes::Done(o) => {
                    assert(Seq::<(int, Seq<(String, String)>)>::empty() + o.nodes =~= o.nodes);
                    assert(Seq::<crate::style::RuleView>::empty() + o.rules =~= o.rules);
                    assert(Seq::<crate::style_src::JobV>::empty() + o.jobs =~= o.jobs);
                },
                PassRes::Fail(_) => {},
            }
        }
        loop
            invariant_except_break
                match spec_root_outcome(
                    events@,
                    *idx as int,
                    self.tree@.len() as int,
                    old(self).base_url@,
                    found_frame,
                ) {
                    PassRes::Done(o) => spec_root_outcome(
                        events@,
                        pin,
                        len0,
                        old(self).base_url@,
                        false,
                    ) == PassRes::Done(
                        PassOut {
                            idx: o.idx,
                            nodes: accn + o.nodes,
                            rules: crate::style::rules_view(self.stylesheet.rules@.skip(nr0))
                                + o.rules,
                            jobs: crate::style_src::jobs_view(self.jobs@.skip(nj0)) + o.jobs,
                        },
                    ),
                    PassRes::Fail(f) => spec_root_outcome(
                        events@,
                        pin,
                        len0,
                        old(self).base_url@,
                        false,
                    ) == PassRes::Fail(f),
                },
            invariant
                self.well_formed(),
                pin == *old(idx) as int,
                len0 == old(self).tree@.len() as int,
                nr0 == old(self).stylesheet.rules@.len(),
                nj0 == old(self).jobs@.len(),
                *old(idx) <= *idx <= events@.len(),
                self.jobs_done == old(self).jobs_done,
                self.file_id == old(self).file_id,
                self.base_url == old(self).base_url,
                self.reporter.files == old(self).reporter.files,
                self.tree@.len() as int == len0 + accn.len(),
                forall|j: int|
                    0 <= j < accn.len() ==> {
                        let ni = #[trigger] self.tree@[len0 + j];
                        &&& (ni.parent matches Some(p) && p.index as int == accn[j].0)
                        &&& unstyled_elem_ok(ni.data, accn[j].1)
                    },
                forall|j: int|
                    0 <= j < old(self).tree@.len() ==> #[trigger] self.tree@[j].data == old(self).tree@[j].data,
                forall|j: int|
                    0 <= j < old(self).tree@.len() ==> #[trigger] self.tree@[j].parent == old(self).tree@[j].parent,
                self.stylesheet.rules@.len() >= nr0,
                forall|k: int|
                    0 <= k < nr0 ==> self.stylesheet.rules@[k] == old(self).stylesheet.rules@[k],
                self.jobs@.len() >= nj0,
                forall|k: int| 0 <= k < nj0 ==> self.jobs@[k] == old(self).jobs@[k],
            ensures
                self.well_formed(),
                *old(idx) <= *idx <= events@.len(),
                self.jobs_done == old(self).jobs_done,
                self.file_id == old(self).file_id,
                self.base_url == old(self).base_url,
                self.reporter.files == old(self).reporter.files,
                self.tree@.len() as int == len0 + accn.len(),
                forall|j: int|
                    0 <= j < accn.len() ==> {
                        let ni = #[trigger] self.tree@[len0 + j];
                        &&& (ni.parent matches Some(p) && p.index as int == accn[j].0)
                        &&& unstyled_elem_ok(ni.data, accn[j].1)
                    },
                forall|j: int|
                    0 <= j < old(self).tree@.len() ==> #[trigger] self.tree@[j].data == old(self).tree@[j].data,
                forall|j: int|
                    0 <= j < old(self).tree@.len() ==> #[trigger] self.tree@[j].parent == old(self).tree@[j].parent,
                self.stylesheet.rules@.len() >= nr0,
                forall|k: int|
                    0 <= k < nr0 ==> self.stylesheet.rules@[k] == old(self).stylesheet.rules@[k],
                self.jobs@.len() >= nj0,
                forall|k: int| 0 <= k < nj0 ==> self.jobs@[k] == old(self).jobs@[k],
                spec_root_outcome(events@, pin, len0, old(self).base_url@, false)
                    == PassRes::Done(
                    PassOut {
                        idx: *idx as int,
                        nodes: accn,
                        rules: crate::style::rules_view(self.stylesheet.rules@.skip(nr0)),
                        jobs: crate::style_src::jobs_view(self.jobs@.skip(nj0)),
                    },
                ),
            decreases events@.len() - *idx,
        {
            if *idx >= events.len() {
                proof {
                    let accr = crate::style::rules_view(self.stylesheet.rules@.skip(nr0));
                    let accj = crate::style_src::jobs_view(self.jobs@.skip(nj0));
                    assert(accn + Seq::<(int, Seq<(String, String)>)>::empty() =~= accn);
                    assert(accr + Seq::<crate::style::RuleView>::empty() =~= accr);
                    assert(accj + Seq::<crate::style_src::JobV>::empty() =~= accj);
                }
                break ;
            }
            let at = *idx;
            *idx = *idx + 1;
            match &events[at] {
                MarkupEvent::Start { name, .. } => {
                    if str_eq(name.as_str(), "Frame") {
                        if found_frame {
                            return Err(
                                CompileFailure::Structure(StructureViolation::DuplicateFrame),
                            );
                        }
                        found_frame = true;
                        let ghost lenpre = self.tree@.len() as int;
                        let ghost midr = self.stylesheet.rules@;
                        let ghost midj = self.jobs@;
                        match self.compile_frame(events, idx) {
                            Ok(_) => {
                                proof {
                                    match spec_frame_outcome(
                                        events@,
                                        at + 1,
                                        lenpre,
                                        old(self).base_url@,
                                        false,
                                        false,
                                    ) {
                                        PassRes::Done(o1) => {
                                            let prevaccn = accn;
                                            accn = accn + o1.nodes;
                                            assert forall|j: int|
                                                0 <= j < accn.len() implies {
                                                let ni = #[trigger] self.tree@[len0 + j];
                                                &&& (ni.parent matches Some(p) && p.index as int
                                                    == accn[j].0)
                                                &&& unstyled_elem_ok(ni.data, accn[j].1)
                                            } by {
                                                if j < prevaccn.len() {
                                                    assert(accn[j] == prevaccn[j]);
                                                } else {
                                                    assert(accn[j] == o1.nodes[j
                                                        - prevaccn.len()]);
                                                    assert(self.tree@[lenpre + (j
                                                        - prevaccn.len())] == self.tree@[len0
                                                        + j]);
                                                }
                                            }
                                            assert(self.stylesheet.rules@.skip(nr0)
                                                =~= midr.skip(nr0) + self.stylesheet.rules@.skip(
                                                midr.len() as int,
                                            ));
                                            crate::style::lemma_rules_view_concat(
                                                midr.skip(nr0),
                                                self.stylesheet.rules@.skip(midr.len() as int),
                                            );
                                            assert(self.jobs@.skip(nj0) =~= midj.skip(nj0)
                                                + self.jobs@.skip(midj.len() as int));
                                            crate::style_src::lemma_jobs_view_concat(
                                                midj.skip(nj0),
                                                self.jobs@.skip(midj.len() as int),
                                            );
                                            let accr = crate::style::rules_view(midr.skip(nr0));
                                            let accj = crate::style_src::jobs_view(
                                                midj.skip(nj0),
                                            );
                                            match spec_root_outcome(
                                                events@,
                                                *idx as int,
                                                self.tree@.len() as int,
                                                old(self).base_url@,
                                                true,
                                            ) {
                                                PassRes::Done(o2) => {
                                                    assert(prevaccn + (o1.nodes + o2.nodes)
                                                        =~= accn + o2.nodes);
                                                    assert(accr + (o1.rules + o2.rules) =~= (accr
                                                        + o1.rules) + o2.rules);
                                                    assert(accj + (o1.jobs + o2.jobs) =~= (accj
                                                        + o1.jobs) + o2.jobs);
                                                },
                                                PassRes::Fail(_) => {},
                                            }
                                        },
                                        PassRes::Fail(_) => {},
                                    }
                                }
                            },
                            Err(e) => {
                                return Err(e);
                            },
                        }
                    } else {
                        return Err(
                            CompileFailure::Structure(
                                StructureViolation::UnknownElement { el: name.clone() },
                            ),
                        );
                    }
                },
                MarkupEvent::Empty { name, .. } => {
                    return Err(
                        CompileFailure::Structure(
                            StructureViolation::UnknownElement { el: name.clone() },
                        ),
                    );
                },
                MarkupEvent::End { .. } => {
                    proof {
                        let accr = crate::style::rules_view(self.stylesheet.rules@.skip(nr0));
                        let accj = crate::style_src::jobs_view(self.jobs@.skip(nj0));
                        assert(accn + Seq::<(int, Seq<(String, String)>)>::empty() =~= accn);
                        assert(accr + Seq::<crate::style::RuleView>::empty() =~= accr);
                        assert(accj + Seq::<crate::style_src::JobV>::empty() =~= accj);
                    }
                    break ;
                },
                MarkupEvent::Eof { .. } => {
                    proof {
                        let accr = crate::style::rules_view(self.stylesheet.rules@.skip(nr0));
                        let accj = crate::style_src::jobs_view(self.jobs@.skip(nj0));
                        assert(accn + Seq::<(int, Seq<(String, String)>)>::empty() =~= accn);
                        assert(accr + Seq::<crate::style::RuleView>::empty() =~= accr);
                        assert(accj + Seq::<crate::style_src::JobV>::empty() =~= accj);
                    }
                    break ;
                },
                ev => {
                    match self.handle_event(ev) {
                        Ok(_) => {},
                        Err(_) => {
                            return Err(CompileFailure::Reported);
                        },
                    }
                },
            }
        }
        Ok(())
    }

    /// The frame context: an optional unique `Head`, then a mandatory
    /// unique `Body`.
    #[verifier::rlimit(100)]
    #[verifier::spinoff_prover]
    fn compile_frame(&mut self, events: &Vec<MarkupEvent>, idx: &mut usize) -> (r: Result<
        (),
        CompileFailure,
    >)
        requires
            old(self).well_formed(),
            *old(idx) <= events@.len(),
        ensures
            final(self).well_formed(),
            *old(idx) <= *final(idx) <= events@.len(),
            final(self).jobs_done == old(self).jobs_done,
            final(self).file_id == old(self).file_id,
            final(self).base_url == old(self).base_url,
            final(self).reporter.files == old(self).reporter.files,
            final(self).tree@.len() >= old(self).tree@.len(),
            forall|j: int|
                0 <= j < old(self).tree@.len() ==> #[trigger] final(self).tree@[j].data == old(self).tree@[j].data,
            forall|j: int|
                0 <= j < old(self).tree@.len() ==> #[trigger] final(self).tree@[j].parent == old(self).tree@[j].parent,
            r matches Err(CompileFailure::Reported) ==> crate::diag::has_blocking(
                final(self).reporter.diagnostics@,
            ),
            final(self).stylesheet.rules@.len() >= old(self).stylesheet.rules@.len(),
            forall|k: int|
                0 <= k < old(self).stylesheet.rules@.len() ==> final(self).stylesheet.rules@[k]
                    == old(self).stylesheet.rules@[k],
            final(self).jobs@.len() >= old(self).jobs@.len(),
            forall|k: int|
                0 <= k < old(self).jobs@.len() ==> final(self).jobs@[k] == old(self).jobs@[k],
            match spec_frame_outcome(
                events@,
                *old(idx) as int,
                old(self).tree@.len() as int,
                old(self).base_url@,
                false,
                false,
            ) {
                PassRes::Done(o) => {
                    &&& r is Ok
                    &&& *final(idx) as int == o.idx
                    &&& final(self).tree@.len() == old(self).tree@.len() + o.nodes.len()
                    &&& (forall|j: int|
                        0 <= j < o.nodes.len() ==> {
                            let ni = #[trigger] final(self).tree@[old(self).tree@.len() + j];
                            &&& (ni.parent matches Some(p) && p.index as int == o.nodes[j].0)
                            &&& unstyled_elem_ok(ni.data, o.nodes[j].1)
                        })
                    &&& final(self).stylesheet.rules@.len() == old(
                        self,
                    ).stylesheet.rules@.len() + o.rules.len()
                    &&& crate::style::rules_view(
                        final(self).stylesheet.rules@.skip(
                            old(self).stylesheet.rules@.len() as int,
                        ),
                    ) == o.rules
                    &&& final(self).jobs@.len() == old(self).jobs@.len() + o.jobs.len()
                    &&& crate::style_src::jobs_view(
                        final(self).jobs@.skip(old(self).jobs@.len() as int),
                    ) == o.jobs
                },
                PassRes::Fail(fv) => r matches Err(f) && fail_view(f) == fv,
            },
        decreases events@.len() - *old(idx), 0int,
    {
        let ghost pin = *idx as int;
        let ghost len0 = self.tree@.len() as int;
        let ghost nr0 = self.stylesheet.rules@.len() as int;
        let ghost nj0 = self.jobs@.len() as int;
        let ghost mut accn: Seq<(int, Seq<(String, String)>)> = Seq::empty();
        let mut found_head = false;
        let mut found_body = false;
        proof {
            assert(self.stylesheet.rules@.skip(nr0) =~= Seq::<crate::style::StyleRule>::empty());
            assert(crate::style::rules_view(Seq::<crate::style::StyleRule>::empty()) =~= Seq::<
                crate::style::RuleView,
            >::empty());
            assert(self.jobs@.skip(nj0) =~= Seq::<crate::style_src::StyleJob>::empty());
            assert(crate::style_src::jobs_view(Seq::<crate::style_src::StyleJob>::empty())
                =~= Seq::<crate::style_src::JobV>::empty());
            match spec_frame_outcome(events@, pin, len0, old(self).base_url@, false, false) {
                PassRes::Done(o) => {
                    assert(Seq::<(int, Seq<(String, String)>)>::empty() + o.nodes =~= o.nodes);
                    assert(Seq::<crate::style::RuleView>::empty() + o.rules =~= o.rules);
                    assert(Seq::<crate::style_src::JobV>::empty() + o.jobs =~= o.jobs);
                },
                PassRes::Fail(_) => {},
            }
        }
        loop
            invariant_except_break
                match spec_frame_outcome(
                    events@,
                    *idx as int,
                    self.tree@.len() as int,
                    old(self).base_url@,
                    found_head,
                    found_body,
                ) {
                    PassRes::Done(o) => spec_frame_outcome(
                        events@,
                        pin,
                        len0,
                        old(self).base_url@,
                        false,
                        false,
                    ) == PassRes::Done(
                        PassOut {
                            idx: o.idx,
                            nodes: accn + o.nodes,
                            rules: crate::style::rules_view(self.stylesheet.rules@.skip(nr0))
                                + o.rules,
                            jobs: crate::style_src::jobs_view(self.jobs@.skip(nj0)) + o.jobs,
                        },
                    ),
                    PassRes::Fail(f) => spec_frame_outcome(
                        events@,
                        pin,
                        len0,
                        old(self).base_url@,
                        false,
                        false,
                    ) == PassRes::Fail(f),
                },
            invariant
                self.well_formed(),
                pin == *old(idx) as int,
                len0 == old(self).tree@.len() as int,
                nr0 == old(self).stylesheet.rules@.len(),
                nj0 == old(self).jobs@.len(),
                *old(idx) <= *idx <= events@.len(),
                self.jobs_done == old(self).jobs_done,
                self.file_id == old(self).file_id,
                self.base_url == old(self).base_url,
                self.reporter.files == old(self).reporter.files,
                self.tree@.len() as int == len0 + accn.len(),
                forall|j: int|
                    0 <= j < accn.len() ==> {
                        let ni = #[trigger] self.tree@[len0 + j];
                        &&& (ni.parent matches Some(p) && p.index as int == accn[j].0)
                        &&& unstyled_elem_ok(ni.data, accn[j].1)
                    },
                forall|j: int|
                    0 <= j < old(self).tree@.len() ==> #[trigger] self.tree@[j].data == old(self).tree@[j].data,
                forall|j: int|
                    0 <= j < old(self).tree@.len() ==> #[trigger] self.tree@[j].parent == old(self).tree@[j].parent,
                self.stylesheet.rules@.len() >= nr0,
                forall|k: int|
                    0 <= k < nr0 ==> self.stylesheet.rules@[k] == old(self).stylesheet.rules@[k],
                self.jobs@.len() >= nj0,
                forall|k: int| 0 <= k < nj0 ==> self.jobs@[k] == old(self).jobs@[k],
            ensures
                self.well_formed(),
                *old(idx) <= *idx <= events@.len(),
                self.jobs_done == old(self).jobs_done,
                self.file_id == old(self).file_id,
                self.base_url == old(self).base_url,
                self.reporter.files == old(self).reporter.files,
                self.tree@.len() as int == len0 + accn.len(),
                forall|j: int|
                    0 <= j < accn.len() ==> {
                        let ni = #[trigger] self.tree@[len0 + j];
                        &&& (ni.parent matches Some(p) && p.index as int == accn[j].0)
                        &&& unstyled_elem_ok(ni.data, accn[j].1)
                    },
                forall|j: int|
                    0 <= j < old(self).tree@.len() ==> #[trigger] self.tree@[j].data == old(self).tree@[j].data,
                forall|j: int|
                    0 <= j < old(self).tree@.len() ==> #[trigger] self.tree@[j].parent == old(self).tree@[j].parent,
                self.stylesheet.rules@.len() >= nr0,
                forall|k: int|
                    0 <= k < nr0 ==> self.stylesheet.rules@[k] == old(self).stylesheet.rules@[k],
                self.jobs@.len() >= nj0,
                forall|k: int| 0 <= k < nj0 ==> self.jobs@[k] == old(self).jobs@[k],
                found_body ==> spec_frame_outcome(
                    events@,
                    pin,
                    len0,
                    old(self).base_url@,
                    false,
                    false,
                ) == PassRes::Done(
                    PassOut {
                        idx: *idx as int,
                        nodes: accn,
                        rules: crate::style::rules_view(self.stylesheet.rules@.skip(nr0)),
                        jobs: crate::style_src::jobs_view(self.jobs@.skip(nj0)),
                    },
                ),
                !found_body ==> spec_frame_outcome(
                    events@,
                    pin,
                    len0,
                    old(self).base_url@,
                    false,
                    false,
                ) == PassRes::Fail(FailV::Structure(ViolationV::MissingBody)),
            decreases events@.len() - *idx,
        {
            if *idx >= events.len() {
                proof {
                    let accr = crate::style::rules_view(self.stylesheet.rules@.skip(nr0));
                    let accj = crate::style_src::jobs_view(self.jobs@.skip(nj0));
                    assert(accn + Seq::<(int, Seq<(String, String)>)>::empty() =~= accn);
                    assert(accr + Seq::<crate::style::RuleView>::empty() =~= accr);
                    assert(accj + Seq::<crate::style_src::JobV>::empty() =~= accj);
                }
                break ;
            }
            let at = *idx;
            *idx = *idx + 1;
            match &events[at] {
                MarkupEvent::Start { name, .. } => {
                    if str_eq(name.as_str(), "Head") {
                        if found_head {
                            return Err(
                                CompileFailure::Structure(StructureViolation::DuplicateHead),
                            );
                        }
                        found_head = true;
                        let ghost midr = self.stylesheet.rules@;
                        let ghost midj = self.jobs@;
                        match self.compile_head(events, idx) {
                            Ok(_) => {
                                proof {
                                    lemma_head_outcome_facts(events@, at + 1, old(self).base_url@);
                                    assert(self.stylesheet.rules@.skip(nr0) =~= midr.skip(nr0)
                                        + self.stylesheet.rules@.skip(midr.len() as int));
                                    crate::style::lemma_rules_view_concat(
                                        midr.skip(nr0),
                                        self.stylesheet.rules@.skip(midr.len() as int),
                                    );
                                    assert(self.jobs@.skip(nj0) =~= midj.skip(nj0)
                                        + self.jobs@.skip(midj.len() as int));
                                    crate::style_src::lemma_jobs_view_concat(
                                        midj.skip(nj0),
                                        self.jobs@.skip(midj.len() as int),
                                    );
                                    let accr = crate::style::rules_view(midr.skip(nr0));
                                    let accj = crate::style_src::jobs_view(midj.skip(nj0));
                                    match spec_head_outcome(events@, at + 1, old(self).base_url@) {
                                        PassRes::Done(o1) => {
                                            assert(accn + (o1.nodes + Seq::<(
                                                int,
                                                Seq<(String, String)>,
                                            )>::empty()) =~= accn);
                                            match spec_frame_outcome(
                                                events@,
                                                *idx as int,
                                                self.tree@.len() as int,
                                                old(self).base_url@,
                                                true,
                                                found_body,
                                            ) {
                                                PassRes::Done(o2) => {
                                                    assert(accn + (o1.nodes + o2.nodes) =~= accn
                                                        + o2.nodes);
                                                    assert(accr + (o1.rules + o2.rules) =~= (accr
                                                        + o1.rules) + o2.rules);
                                                    assert(accj + (o1.jobs + o2.jobs) =~= (accj
                                                        + o1.jobs) + o2.jobs);
                                                },
                                                PassRes::Fail(_) => {},
                                            }
                                        },
                                        PassRes::Fail(_) => {},
                                    }
                                }
                            },
                            Err(e) => {
                                return Err(e);
                            },
                        }
                    } else if str_eq(name.as_str(), "Body") {
                        if found_body {
                            return Err(
                                CompileFailure::Structure(StructureViolation::DuplicateBody),
                            );
                        }
                        found_body = true;
                        let ghost lenpre = self.tree@.len() as int;
                        let ghost midr = self.stylesheet.rules@;
                        let ghost midj = self.jobs@;
                        match self.compile_body(events, idx) {
                            Ok(_) => {
                                proof {
                                    match spec_ui_outcome(events@, at + 1, 0, lenpre) {
                                        PassRes::Done(o1) => {
                                            lemma_ui_outcome_facts(events@, at + 1, 0, lenpre);
                                            let prevaccn = accn;
                                            accn = accn + o1.nodes;
                                            assert forall|j: int|
                                                0 <= j < accn.len() implies {
                                                let ni = #[trigger] self.tree@[len0 + j];
                                                &&& (ni.parent matches Some(p) && p.index as int
                                                    == accn[j].0)
                                                &&& unstyled_elem_ok(ni.data, accn[j].1)
                                            } by {
                                                if j < prevaccn.len() {
                                                    assert(accn[j] == prevaccn[j]);
                                                } else {
                                                    assert(accn[j] == o1.nodes[j
                                                        - prevaccn.len()]);
                                                    assert(self.tree@[lenpre + (j
                                                        - prevaccn.len())] == self.tree@[len0
                                                        + j]);
                                                }
                                            }
                                            let accr = crate::style::rules_view(
                                                self.stylesheet.rules@.skip(nr0),
                                            );
                                            let accj = crate::style_src::jobs_view(
                                                self.jobs@.skip(nj0),
                                            );
                                            match spec_frame_outcome(
                                                events@,
                                                *idx as int,
                                                self.tree@.len() as int,
                                                old(self).base_url@,
                                                found_head,
                                                true,
                                            ) {
                                                PassRes::Done(o2) => {
                                                    assert(prevaccn + (o1.nodes + o2.nodes)
                                                        =~= accn + o2.nodes);
                                                    assert(accr + (o1.rules + o2.rules) =~= accr
                                                        + o2.rules);
                                                    assert(accj + (o1.jobs + o2.jobs) =~= accj
                                                        + o2.jobs);
                                                },
                                                PassRes::Fail(_) => {},
                                            }
                                        },
                                        PassRes::Fail(_) => {},
                                    }
                                }
                            },
                            Err(e) => {
                                return Err(e);
                            },
                        }
                    } else {
                        return Err(
                            CompileFailure::Structure(
                                StructureViolation::UnknownElement { el: name.clone() },
                            ),
                        );
                    }
                },
                MarkupEvent::Empty { name, .. } => {
                    return Err(
                        CompileFailure::Structure(
                            StructureViolation::UnknownElement { el: name.clone() },
                        ),
                    );
                },
                MarkupEvent::End { .. } => {
                    proof {
                        let accr = crate::style::rules_view(self.stylesheet.rules@.skip(nr0));
                        let accj = crate::style_src::jobs_view(self.jobs@.skip(nj0));
                        assert(accn + Seq::<(int, Seq<(String, String)>)>::empty() =~= accn);
                        assert(accr + Seq::<crate::style::RuleView>::empty() =~= accr);
                        assert(accj + Seq::<crate::style_src::JobV>::empty() =~= accj);
                    }
                    break ;
                },
                ev => {
                    match self.handle_event(ev) {
                        Ok(_) => {},
                        Err(_) => {
                            return Err(CompileFailure::Reported);
                        },
                    }
                },
            }
        }
        if !found_body {
            return Err(CompileFailure::Structure(StructureViolation::MissingBody));
        }
        Ok(())
    }

    /// The head context: zero or more `Style` elements.
    #[verifier::rlimit(100)]
    #[verifier::spinoff_prover]
    fn compile_head(&mut self, events: &Vec<MarkupEvent>, idx: &mut usize) -> (r: Result<
        (),
        CompileFailure,
    >)
        requires
            old(self).well_formed(),
            *old(idx) <= events@.len(),
        ensures
            final(self).well_formed(),
            *old(idx) <= *final(idx) <= events@.len(),
            final(self).jobs_done == old(self).jobs_done,
            final(self).file_id == old(self).file_id,
            final(self).base_url == old(self).base_url,
            final(self).reporter.files == old(self).reporter.files,
            final(self).tree == old(self).tree,
            final(self).tree@.len() >= old(self).tree@.len(),
            forall|j: int|
                0 <= j < old(self).tree@.len() ==> #[trigger] final(self).tree@[j].data == old(self).tree@[j].data,
            forall|j: int|
                0 <= j < old(self).tree@.len() ==> #[trigger] final(self).tree@[j].parent == old(self).tree@[j].parent,
            r matches Err(CompileFailure::Reported) ==> crate::diag::has_blocking(
                final(self).reporter.diagnostics@,
            ),
            final(self).stylesheet.rules@.len() >= old(self).stylesheet.rules@.len(),
            forall|k: int|
                0 <= k < old(self).stylesheet.rules@.len() ==> final(self).stylesheet.rules@[k]
                    == old(self).stylesheet.rules@[k],
            final(self).jobs@.len() >= old(self).jobs@.len(),
            forall|k: int|
                0 <= k < old(self).jobs@.len() ==> final(self).jobs@[k] == old(self).jobs@[k],
            match spec_head_outcome(events@, *old(idx) as int, old(self).base_url@) {
                PassRes::Done(o) => {
                    &&& r is Ok
                    &&& *final(idx) as int == o.idx
                    &&& final(self).stylesheet.rules@.len() == old(
                        self,
                    ).stylesheet.rules@.len() + o.rules.len()
                    &&& crate::style::rules_view(
                        final(self).stylesheet.rules@.skip(
                            old(self).stylesheet.rules@.len() as int,
                        ),
                    ) == o.rules
                    &&& final(self).jobs@.len() == old(self).jobs@.len() + o.jobs.len()
                    &&& crate::style_src::jobs_view(
                        final(self).jobs@.skip(old(self).jobs@.len() as int),
                    ) == o.jobs
                },
                PassRes::Fail(fv) => r matches Err(f) && fail_view(f) == fv,
            },
        decreases events@.len() - *old(idx), 0int,
    {
        let ghost pin = *idx as int;
        let ghost nr0 = self.stylesheet.rules@.len() as int;
        let ghost nj0 = self.jobs@.len() as int;
        proof {
            assert(self.stylesheet.rules@.skip(nr0) =~= Seq::<crate::style::StyleRule>::empty());
            assert(crate::style::rules_view(Seq::<crate::style::StyleRule>::empty()) =~= Seq::<
                crate::style::RuleView,
            >::empty());
            assert(self.jobs@.skip(nj0) =~= Seq::<crate::style_src::StyleJob>::empty());
            assert(crate::style_src::jobs_view(Seq::<crate::style_src::StyleJob>::empty())
                =~= Seq::<crate::style_src::JobV>::empty());
            lemma_head_outcome_facts(events@, pin, old(self).base_url@);
            match spec_head_outcome(events@, pin, old(self).base_url@) {
                PassRes::Done(o) => {
                    assert(Seq::<crate::style::RuleView>::empty() + o.rules =~= o.rules);
                    assert(Seq::<crate::style_src::JobV>::empty() + o.jobs =~= o.jobs);
                },
                PassRes::Fail(_) => {},
            }
        }
        loop
            invariant_except_break
                match spec_head_outcome(events@, *idx as int, old(self).base_url@) {
                    PassRes::Done(o) => spec_head_outcome(events@, pin, old(self).base_url@)
                        == PassRes::Done(
                        PassOut {
                            idx: o.idx,
                            nodes: Seq::empty(),
                            rules: crate::style::rules_view(self.stylesheet.rules@.skip(nr0))
                                + o.rules,
                            jobs: crate::style_src::jobs_view(self.jobs@.skip(nj0)) + o.jobs,
                        },
                    ),
                    PassRes::Fail(f) => spec_head_outcome(events@, pin, old(self).base_url@)
                        == PassRes::Fail(f),
                },
            invariant
                self.well_formed(),
                pin == *old(idx) as int,
                *old(idx) <= *idx <= events@.len(),
                self.jobs_done == old(self).jobs_done,
                self.file_id == old(self).file_id,
                self.base_url == old(self).base_url,
                self.reporter.files == old(self).reporter.files,
                self.tree == old(self).tree,
                nr0 == old(self).stylesheet.rules@.len(),
                nj0 == old(self).jobs@.len(),
                self.stylesheet.rules@.len() >= nr0,
                forall|k: int|
                    0 <= k < nr0 ==> self.stylesheet.rules@[k] == old(self).stylesheet.rules@[k],
                self.jobs@.len() >= nj0,
                forall|k: int| 0 <= k < nj0 ==> self.jobs@[k] == old(self).jobs@[k],
            ensures
                self.well_formed(),
                *old(idx) <= *idx <= events@.len(),
                self.jobs_done == old(self).jobs_done,
                self.file_id == old(self).file_id,
                self.base_url == old(self).base_url,
                self.reporter.files == old(self).reporter.files,
                self.tree == old(self).tree,
                self.stylesheet.rules@.len() >= nr0,
                forall|k: int|
                    0 <= k < nr0 ==> self.stylesheet.rules@[k] == old(self).stylesheet.rules@[k],
                self.jobs@.len() >= nj0,
                forall|k: int| 0 <= k < nj0 ==> self.jobs@[k] == old(self).jobs@[k],
                spec_head_outcome(events@, pin, old(self).base_url@) == PassRes::Done(
                    PassOut {
                        idx: *idx as int,
                        nodes: Seq::empty(),
                        rules: crate::style::rules_view(self.stylesheet.rules@.skip(nr0)),
                        jobs: crate::style_src::jobs_view(self.jobs@.skip(nj0)),
                    },
                ),
            decreases events@.len() - *idx,
        {
            if *idx >= events.len() {
                proof {
                    let accr = crate::style::rules_view(self.stylesheet.rules@.skip(nr0));
                    let accj = crate::style_src::jobs_view(self.jobs@.skip(nj0));
                    assert(accr + Seq::<crate::style::RuleView>::empty() =~= accr);
                    assert(accj + Seq::<crate::style_src::JobV>::empty() =~= accj);
                }
                break ;
            }
            let at = *idx;
            *idx = *idx + 1;
            match &events[at] {
                MarkupEvent::Start { name, attrs, pos } => {
                    if str_eq(name.as_str(), "Style") {
                        let ghost midr = self.stylesheet.rules@;
                        let ghost midj = self.jobs@;
                        match self.compile_style(attrs, false, *pos, events, idx) {
                            Ok(_) => {
                                proof {
                                    assert(self.stylesheet.rules@.skip(nr0) =~= midr.skip(nr0)
                                        + self.stylesheet.rules@.skip(midr.len() as int));
                                    crate::style::lemma_rules_view_concat(
                                        midr.skip(nr0),
                                        self.stylesheet.rules@.skip(midr.len() as int),
                                    );
                                    assert(self.jobs@.skip(nj0) =~= midj.skip(nj0)
                                        + self.jobs@.skip(midj.len() as int));
                                    crate::style_src::lemma_jobs_view_concat(
                                        midj.skip(nj0),
                                        self.jobs@.skip(midj.len() as int),
                                    );
                                    let accr = crate::style::rules_view(midr.skip(nr0));
                                    let accj = crate::style_src::jobs_view(midj.skip(nj0));
                                    match crate::style_src::spec_style_outcome(
                                        events@,
                                        at + 1,
                                        attrs@,
                                        false,
                                        old(self).base_url@,
                                    ) {
                                        PassRes::Done(o1) => {
                                            match spec_head_outcome(
                                                events@,
                                                *idx as int,
                                                old(self).base_url@,
                                            ) {
                                                PassRes::Done(o2) => {
                                                    assert(accr + (o1.rules + o2.rules) =~= (accr
                                                        + o1.rules) + o2.rules);
                                                    assert(accj + (o1.jobs + o2.jobs) =~= (accj
                                                        + o1.jobs) + o2.jobs);
                                                },
                                                PassRes::Fail(_) => {},
                                            }
                                        },
                                        PassRes::Fail(_) => {},
                                    }
                                }
                            },
                            Err(e) => {
                                return Err(e);
                            },
                        }
                    } else {
                        return Err(
                            CompileFailure::Structure(
                                StructureViolation::UnknownElement { el: name.clone() },
                            ),
                        );
                    }
                },
                MarkupEvent::Empty { name, attrs, pos } => {
                    if str_eq(name.as_str(), "Style") {
                        let ghost midr = self.stylesheet.rules@;
                        let ghost midj = self.jobs@;
                        match self.compile_style(attrs, true, *pos, events, idx) {
                            Ok(_) => {
                                proof {
                                    assert(self.stylesheet.rules@.skip(nr0) =~= midr.skip(nr0)
                                        + self.stylesheet.rules@.skip(midr.len() as int));
                                    crate::style::lemma_rules_view_concat(
                                        midr.skip(nr0),
                                        self.stylesheet.rules@.skip(midr.len() as int),
                                    );
                                    assert(self.jobs@.skip(nj0) =~= midj.skip(nj0)
                                        + self.jobs@.skip(midj.len() as int));
                                    crate::style_src::lemma_jobs_view_concat(
                                        midj.skip(nj0),
                                        self.jobs@.skip(midj.len() as int),
                                    );
                                    let accr = crate::style::rules_view(midr.skip(nr0));
                                    let accj = crate::style_src::jobs_view(midj.skip(nj0));
                                    match crate::style_src::spec_style_outcome(
                                        events@,
                                        at + 1,
                                        attrs@,
                                        true,
                                        old(self).base_url@,
                                    ) {
                                        PassRes::Done(o1) => {
                                            match spec_head_outcome(
                                                events@,
                                                *idx as int,
                                                old(self).base_url@,
                                            ) {
                                                PassRes::Done(o2) => {
                                                    assert(accr + (o1.rules + o2.rules) =~= (accr
                                                        + o1.rules) + o2.rules);
                                                    assert(accj + (o1.jobs + o2.jobs) =~= (accj
                                                        + o1.jobs) + o2.jobs);
                                                },
                                                PassRes::Fail(_) => {},
                                            }
                                        },
                                        PassRes::Fail(_) => {},
                                    }
                                }
                            },
                            Err(e) => {
                                return Err(e);
                            },
                        }
                    } else {
                        return Err(
                            CompileFailure::Structure(
                                StructureViolation::UnknownElement { el: name.clone() },
                            ),
                        );
                    }
                },
                MarkupEvent::End { .. } => {
                    proof {
                        let accr = crate::style::rules_view(self.stylesheet.rules@.skip(nr0));
                        let accj = crate::style_src::jobs_view(self.jobs@.skip(nj0));
                        assert(accr + Seq::<crate::style::RuleView>::empty() =~= accr);
                        assert(accj + Seq::<crate::style_src::JobV>::empty() =~= accj);
                    }
                    break ;
                },
                ev => {
                    match self.handle_event(ev) {
                        Ok(_) => {},
                        Err(_) => {
                            return Err(CompileFailure::Reported);
                        },
                    }
                },
            }
        }
        Ok(())
    }

    /// The body context: the UI element tree under the root node.
    fn compile_body(&mut self, events: &Vec<MarkupEvent>, idx: &mut usize) -> (r: Result<
        (),
        CompileFailure,
    >)
        requires
            old(self).well_formed(),
            *old(idx) <= events@.len(),
        ensures
            final(self).well_formed(),
            *old(idx) <= *final(idx) <= events@.len(),
            final(self).jobs_done == old(self).jobs_done,
            final(self).file_id == old(self).file_id,
            final(self).base_url == old(self).base_url,
            final(self).reporter.files == old(self).reporter.files,
            final(self).tree@.len() >= old(self).tree@.len(),
            forall|j: int|
                0 <= j < old(self).tree@.len() ==> #[trigger] final(self).tree@[j].data == old(self).tree@[j].data,
            forall|j: int|
                0 <= j < old(self).tree@.len() ==> #[trigger] final(self).tree@[j].parent == old(self).tree@[j].parent,
            r matches Err(CompileFailure::Reported) ==> crate::diag::has_blocking(
                final(self).reporter.diagnostics@,
            ),
            final(self).stylesheet == old(self).stylesheet,
            final(self).jobs == old(self).jobs,
            final(self).reporter.diagnostics@.len() >= old(self).reporter.diagnostics@.len(),
            forall|j: int|
                0 <= j < old(self).reporter.diagnostics@.len()
                    ==> final(self).reporter.diagnostics@[j]
                    == old(self).reporter.diagnostics@[j],
            match spec_ui_outcome(events@, *old(idx) as int, 0, old(self).tree@.len() as int) {
                PassRes::Done(o) => {
                    &&& r is Ok
                    &&& *final(idx) as int == o.idx
                    &&& final(self).tree@.len() == old(self).tree@.len() + o.nodes.len()
                    &&& (forall|j: int|
                        0 <= j < o.nodes.len() ==> {
                            let ni = #[trigger] final(self).tree@[old(self).tree@.len() + j];
                            &&& (ni.parent matches Some(p) && p.index as int == o.nodes[j].0)
                            &&& unstyled_elem_ok(ni.data, o.nodes[j].1)
                        })
                },
                PassRes::Fail(fv) => r matches Err(f) && fail_view(f) == fv,
            },
        decreases events@.len() - *old(idx), 2int,
    {
        let root = Node { index: 0 };
        self.compile_ui_element(root, events, idx)
    }

    /// A UI-element context: children of `parent`, all of kind `Unstyled`.
    fn compile_ui_element(&mut self, parent: Node, events: &Vec<MarkupEvent>, idx: &mut usize) -> (r:
        Result<(), CompileFailure>)
        requires
            old(self).well_formed(),
            parent.index < old(self).tree@.len(),
            *old(idx) <= events@.len(),
        ensures
            final(self).well_formed(),
            *old(idx) <= *final(idx) <= events@.len(),
            final(self).jobs_done == old(self).jobs_done,
            final(self).file_id == old(self).file_id,
            final(self).base_url == old(self).base_url,
            final(self).reporter.files == old(self).reporter.files,
            final(self).tree@.len() >= old(self).tree@.len(),
            forall|j: int|
                0 <= j < old(self).tree@.len() ==> #[trigger] final(self).tree@[j].data == old(self).tree@[j].data,
            forall|j: int|
                0 <= j < old(self).tree@.len() ==> #[trigger] final(self).tree@[j].parent == old(self).tree@[j].parent,
            r matches Err(CompileFailure::Reported) ==> crate::diag::has_blocking(
                final(self).reporter.diagnostics@,
            ),
            final(self).stylesheet == old(self).stylesheet,
            final(self).jobs == old(self).jobs,
            final(self).reporter.diagnostics@.len() >= old(self).reporter.diagnostics@.len(),
            forall|j: int|
                0 <= j < old(self).reporter.diagnostics@.len()
                    ==> final(self).reporter.diagnostics@[j]
                    == old(self).reporter.diagnostics@[j],
            match spec_ui_outcome(
                events@,
                *old(idx) as int,
                parent.index as int,
                old(self).tree@.len() as int,
            ) {
                PassRes::Done(o) => {
                    &&& r is Ok
                    &&& *final(idx) as int == o.idx
                    &&& final(self).tree@.len() == old(self).tree@.len() + o.nodes.len()
                    &&& (forall|j: int|
                        0 <= j < o.nodes.len() ==> {
                            let ni = #[trigger] final(self).tree@[old(self).tree@.len() + j];
                            &&& (ni.parent matches Some(p) && p.index as int == o.nodes[j].0)
                            &&& unstyled_elem_ok(ni.data, o.nodes[j].1)
                        })
                },
                PassRes::Fail(fv) => r matches Err(f) && fail_view(f) == fv,
            },
        decreases events@.len() - *old(idx), 0int,
    {
        let ghost pin = *idx as int;
        let ghost len0 = self.tree@.len() as int;
        let ghost mut accn: Seq<(int, Seq<(String, String)>)> = Seq::empty();
        loop
            invariant_except_break
                match spec_ui_outcome(
                    events@,
                    *idx as int,
                    parent.index as int,
                    self.tree@.len() as int,
                ) {
                    PassRes::Done(o) => spec_ui_outcome(events@, pin, parent.index as int, len0)
                        == PassRes::Done(
                        PassOut {
                            idx: o.idx,
                            nodes: accn + o.nodes,
                            rules: o.rules,
                            jobs: o.jobs,
                        },
                    ),
                    PassRes::Fail(f) => spec_ui_outcome(events@, pin, parent.index as int, len0)
                        == PassRes::Fail(f),
                },
            invariant
                self.well_formed(),
                parent.index < self.tree@.len(),
                pin == *old(idx) as int,
                len0 == old(self).tree@.len() as int,
                *old(idx) <= *idx <= events@.len(),
                self.tree@.len() as int == len0 + accn.len(),
                forall|j: int|
                    0 <= j < accn.len() ==> {
                        let ni = #[trigger] self.tree@[len0 + j];
                        &&& (ni.parent matches Some(p) && p.index as int == accn[j].0)
                        &&& unstyled_elem_ok(ni.data, accn[j].1)
                    },
                self.stylesheet == old(self).stylesheet,
                self.jobs == old(self).jobs,
                self.jobs_done == old(self).jobs_done,
                self.file_id == old(self).file_id,
                self.base_url == old(self).base_url,
                self.reporter.files == old(self).reporter.files,
                self.reporter.diagnostics@.len() >= old(self).reporter.diagnostics@.len(),
                forall|j: int|
                    0 <= j < old(self).reporter.diagnostics@.len()
                        ==> self.reporter.diagnostics@[j] == old(self).reporter.diagnostics@[j],
                forall|j: int|
                    0 <= j < old(self).tree@.len() ==> #[trigger] self.tree@[j].data == old(self).tree@[j].data,
                forall|j: int|
                    0 <= j < old(self).tree@.len() ==> #[trigger] self.tree@[j].parent == old(self).tree@[j].parent,
            ensures
                self.well_formed(),
                *old(idx) <= *idx <= events@.len(),
                self.tree@.len() as int == len0 + accn.len(),
                forall|j: int|
                    0 <= j < accn.len() ==> {
                        let ni = #[trigger] self.tree@[len0 + j];
                        &&& (ni.parent matches Some(p) && p.index as int == accn[j].0)
                        &&& unstyled_elem_ok(ni.data, accn[j].1)
                    },
                self.stylesheet == old(self).stylesheet,
                self.jobs == old(self).jobs,
                self.jobs_done == old(self).jobs_done,
                self.file_id == old(self).file_id,
                self.base_url == old(self).base_url,
                self.reporter.files == old(self).reporter.files,
                self.reporter.diagnostics@.len() >= old(self).reporter.diagnostics@.len(),
                forall|j: int|
                    0 <= j < old(self).reporter.diagnostics@.len()
                        ==> self.reporter.diagnostics@[j] == old(self).reporter.diagnostics@[j],
                forall|j: int|
                    0 <= j < old(self).tree@.len() ==> #[trigger] self.tree@[j].data == old(self).tree@[j].data,
                forall|j: int|
                    0 <= j < old(self).tree@.len() ==> #[trigger] self.tree@[j].parent == old(self).tree@[j].parent,
                spec_ui_outcome(events@, pin, parent.index as int, len0) == PassRes::Done(
                    PassOut {
                        idx: *idx as int,
                        nodes: accn,
                        rules: Seq::empty(),
                        jobs: Seq::empty(),
                    },
                ),
            decreases events@.len() - *idx,
        {
            if *idx >= events.len() {
                proof {
                    assert(accn + Seq::<(int, Seq<(String, String)>)>::empty() =~= accn);
                }
                break ;
            }
            let at = *idx;
            *idx = *idx + 1;
            match &events[at] {
                MarkupEvent::Start { name, attrs, pos } => {
                    if str_eq(name.as_str(), "Unstyled") {
                        let ghost lenpre = self.tree@.len() as int;
                        match self.compile_unstyled(attrs, *pos, parent, false, events, idx) {
                            Ok(_) => {
                                proof {
                                    match spec_unstyled_outcome(
                                        events@,
                                        at + 1,
                                        attrs@,
                                        parent.index as int,
                                        lenpre,
                                        false,
                                    ) {
                                        PassRes::Done(o1) => {
                                            lemma_unstyled_outcome_facts(
                                                events@,
                                                at + 1,
                                                attrs@,
                                                parent.index as int,
                                                lenpre,
                                                false,
                                            );
                                            let prevaccn = accn;
                                            accn = accn + o1.nodes;
                                            assert forall|j: int|
                                                0 <= j < accn.len() implies {
                                                let ni = #[trigger] self.tree@[len0 + j];
                                                &&& (ni.parent matches Some(p) && p.index as int
                                                    == accn[j].0)
                                                &&& unstyled_elem_ok(ni.data, accn[j].1)
                                            } by {
                                                if j < prevaccn.len() {
                                                    assert(accn[j] == prevaccn[j]);
                                                } else {
                                                    assert(accn[j] == o1.nodes[j
                                                        - prevaccn.len()]);
                                                    assert(self.tree@[lenpre + (j
                                                        - prevaccn.len())] == self.tree@[len0
                                                        + j]);
                                                }
                                            }
                                            match spec_ui_outcome(
                                                events@,
                                                *idx as int,
                                                parent.index as int,
                                                self.tree@.len() as int,
                                            ) {
                                                PassRes::Done(o2) => {
                                                    assert(prevaccn + (o1.nodes + o2.nodes)
                                                        =~= accn + o2.nodes);
                                                    assert(o1.rules + o2.rules =~= o2.rules);
                                                    assert(o1.jobs + o2.jobs =~= o2.jobs);
                                                },
                                                PassRes::Fail(_) => {},
                                            }
                                        },
                                        PassRes::Fail(_) => {},
                                    }
                                }
                            },
                            Err(e) => {
                                return Err(e);
                            },
                        }
                    } else {
                        return Err(
                            CompileFailure::Structure(
                                StructureViolation::UnknownElement { el: name.clone() },
                            ),
                        );
                    }
                },
                MarkupEvent::Empty { name, attrs, pos } => {
                    if str_eq(name.as_str(), "Unstyled") {
                        let ghost lenpre = self.tree@.len() as int;
                        match self.compile_unstyled(attrs, *pos, parent, true, events, idx) {
                            Ok(_) => {
                                proof {
                                    match spec_unstyled_outcome(
                                        events@,
                                        at + 1,
                                        attrs@,
                                        parent.index as int,
                                        lenpre,
                                        true,
                                    ) {
                                        PassRes::Done(o1) => {
                                            lemma_unstyled_outcome_facts(
                                                events@,
                                                at + 1,
                                                attrs@,
                                                parent.index as int,
                                                lenpre,
                                                true,
                                            );
                                            let prevaccn = accn;
                                            accn = accn + o1.nodes;
                                            assert forall|j: int|
                                                0 <= j < accn.len() implies {
                                                let ni = #[trigger] self.tree@[len0 + j];
                                                &&& (ni.parent matches Some(p) && p.index as int
                                                    == accn[j].0)
                                                &&& unstyled_elem_ok(ni.data, accn[j].1)
                                            } by {
                                                if j < prevaccn.len() {
                                                    assert(accn[j] == prevaccn[j]);
                                                } else {
                                                    assert(accn[j] == o1.nodes[j
                                                        - prevaccn.len()]);
                                                    assert(self.tree@[lenpre + (j
                                                        - prevaccn.len())] == self.tree@[len0
                                                        + j]);
                                                }
                                            }
                                            match spec_ui_outcome(
                                                events@,
                                                *idx as int,
                                                parent.index as int,
                                                self.tree@.len() as int,
                                            ) {
                                                PassRes::Done(o2) => {
                                                    assert(prevaccn + (o1.nodes + o2.nodes)
                                                        =~= accn + o2.nodes);
                                                    assert(o1.rules + o2.rules =~= o2.rules);
                                                    assert(o1.jobs + o2.jobs =~= o2.jobs);
                                                },
                                                PassRes::Fail(_) => {},
                                            }
                                        },
                                        PassRes::Fail(_) => {},
                                    }
                                }
                            },
                            Err(e) => {
                                return Err(e);
                            },
                        }
                    } else {
                        return Err(
                            CompileFailure::Structure(
                                StructureViolation::UnknownElement { el: name.clone() },
                            ),
                        );
                    }
                },
                MarkupEvent::End { .. } => {
                    proof {
                        assert(accn + Seq::<(int, Seq<(String, String)>)>::empty() =~= accn);
                    }
                    break ;
                },
                ev => {
                    match self.handle_event(ev) {
                        Ok(_) => {},
                        Err(_) => {
                            return Err(CompileFailure::Reported);
                        },
                    }
                },
            }
        }
        Ok(())
    }

    /// One `Unstyled` element: parse its attributes, append it as the last
    /// child of `parent`, and (unless self-closing) compile its children.
    fn compile_unstyled(
        &mut self,
        attrs: &Vec<(String, String)>,
        pos: usize,
        parent: Node,
        self_closing: bool,
        events: &Vec<MarkupEvent>,
        idx: &mut usize,
    ) -> (r: Result<(), CompileFailure>)
        requires
            old(self).well_formed(),
            parent.index < old(self).tree@.len(),
            *old(idx) <= events@.len(),
        ensures
            final(self).well_formed(),
            *old(idx) <= *final(idx) <= events@.len(),
            final(self).jobs_done == old(self).jobs_done,
            final(self).file_id == old(self).file_id,
            final(self).base_url == old(self).base_url,
            final(self).reporter.files == old(self).reporter.files,
            final(self).tree@.len() >= old(self).tree@.len(),
            forall|j: int|
                0 <= j < old(self).tree@.len() ==> #[trigger] final(self).tree@[j].data == old(self).tree@[j].data,
            forall|j: int|
                0 <= j < old(self).tree@.len() ==> #[trigger] final(self).tree@[j].parent == old(self).tree@[j].parent,
            r matches Err(CompileFailure::Reported) ==> crate::diag::has_blocking(
                final(self).reporter.diagnostics@,
            ),
            // The reserved `style` attribute aborts outright.
            spec_attr_last(attrs@, "style"@) is Some ==> r == Err::<(), CompileFailure>(
                CompileFailure::Structure(StructureViolation::UnsupportedStyleAttribute),
            ),
            // Otherwise the element is appended as a child of `parent`,
            // with its classes split from the literal `class` attribute
            // and its id taken from the literal `id` attribute.
            spec_attr_last(attrs@, "style"@) is None ==> {
                &&& final(self).tree@.len() > old(self).tree@.len()
                &&& final(self).tree@[old(self).tree@.len() as int].parent == Some(parent)
                &&& unstyled_elem_ok(final(self).tree@[old(self).tree@.len() as int].data, attrs@)
            },
            final(self).stylesheet == old(self).stylesheet,
            final(self).jobs == old(self).jobs,
            final(self).reporter.diagnostics@.len() >= old(self).reporter.diagnostics@.len(),
            forall|j: int|
                0 <= j < old(self).reporter.diagnostics@.len()
                    ==> final(self).reporter.diagnostics@[j]
                    == old(self).reporter.diagnostics@[j],
            // Each attribute whose key is none of `class`, `id`, `style`
            // draws one `Info`-level `InvalidAttribute` diagnostic at the
            // element's position, in attribute order, and is otherwise
            // ignored.
            spec_attr_last(attrs@, "style"@) is None ==> {
                &&& final(self).reporter.diagnostics@.len() >= old(
                    self,
                ).reporter.diagnostics@.len() + spec_unknown_attrs(attrs@).len()
                &&& (forall|j: int|
                    0 <= j < spec_unknown_attrs(attrs@).len() ==> {
                        let d = #[trigger] final(self).reporter.diagnostics@[old(
                            self,
                        ).reporter.diagnostics@.len() + j];
                        &&& (d.kind matches DiagnosticKind::InvalidAttribute { el, attr }
                            && el@ == "Unstyled"@ && attr@ == spec_unknown_attrs(attrs@)[j])
                        &&& d.location == Some((old(self).file_id, pos))
                        &&& d.min_level == Level::Info
                    })
            },
            // The whole element and its content, under the structural
            // grammar: the elements appended, or how the pass fails.
            match spec_unstyled_outcome(
                events@,
                *old(idx) as int,
                attrs@,
                parent.index as int,
                old(self).tree@.len() as int,
                self_closing,
            ) {
                PassRes::Done(o) => {
                    &&& r is Ok
                    &&& *final(idx) as int == o.idx
                    &&& final(self).tree@.len() == old(self).tree@.len() + o.nodes.len()
                    &&& (forall|j: int|
                        0 <= j < o.nodes.len() ==> {
                            let ni = #[trigger] final(self).tree@[old(self).tree@.len() + j];
                            &&& (ni.parent matches Some(p) && p.index as int == o.nodes[j].0)
                            &&& unstyled_elem_ok(ni.data, o.nodes[j].1)
                        })
                },
                PassRes::Fail(fv) => r matches Err(f) && fail_view(f) == fv,
            },
        decreases events@.len() - *old(idx), 1int,
    {
        let mut el = Element::new(
            ElementData::Unstyled(UnstyledElement),
            RawElementAttributes::empty(),
        );
        let mut k: usize = 0;
        proof {
            assert(attrs@.take(0) =~= Seq::<(String, String)>::empty());
        }
        while k < attrs.len()
            invariant
                self.well_formed(),
                self.tree == old(self).tree,
                self.stylesheet == old(self).stylesheet,
                self.jobs == old(self).jobs,
                *idx == *old(idx),
                *old(idx) <= events@.len(),
                self.reporter.diagnostics@.len() == old(self).reporter.diagnostics@.len()
                    + spec_unknown_attrs(attrs@.take(k as int)).len(),
                forall|j: int|
                    0 <= j < old(self).reporter.diagnostics@.len()
                        ==> self.reporter.diagnostics@[j] == old(self).reporter.diagnostics@[j],
                forall|j: int|
                    0 <= j < spec_unknown_attrs(attrs@.take(k as int)).len() ==> {
                        let d = #[trigger] self.reporter.diagnostics@[old(
                            self,
                        ).reporter.diagnostics@.len() + j];
                        &&& (d.kind matches DiagnosticKind::InvalidAttribute { el, attr }
                            && el@ == "Unstyled"@ && attr@ == spec_unknown_attrs(
                            attrs@.take(k as int),
                        )[j])
                        &&& d.location == Some((old(self).file_id, pos))
                        &&& d.min_level == Level::Info
                    },
                self.jobs_done == old(self).jobs_done,
                self.file_id == old(self).file_id,
                self.base_url == old(self).base_url,
                self.reporter.files == old(self).reporter.files,
                k <= attrs@.len(),
                el.data == ElementData::Unstyled(UnstyledElement),
                el.classes.deep_view() == (match spec_attr_last(attrs@.take(k as int), "class"@) {
                    Some(v) => crate::text::split_ws(v),
                    None => Seq::<Seq<char>>::empty(),
                }),
                crate::element::id_view(el.id) == spec_attr_last(attrs@.take(k as int), "id"@),
                (match spec_attr_last(attrs@.take(k as int), "class"@) {
                    Some(v) => el.raw_attributes.class matches Some(
                        RawAttributeValue::Raw { value, .. },
                    ) && value@ == v,
                    None => el.raw_attributes.class is None,
                }),
                (match spec_attr_last(attrs@.take(k as int), "id"@) {
                    Some(v) => el.raw_attributes.id matches Some(
                        RawAttributeValue::Raw { value, .. },
                    ) && value@ == v,
                    None => el.raw_attributes.id is None,
                }),
                el.raw_attributes.style is None,
                el.style@.len() == 0,
                el.computed == crate::style::ComputedStyle::initial(),
                spec_attr_last(attrs@.take(k as int), "style"@) is None,
            decreases attrs@.len() - k,
        {
            proof {
                assert(attrs@.take(k + 1).drop_last() =~= attrs@.take(k as int));
                assert(attrs@.take(k + 1).last() == attrs@[k as int]);
            }
            let key = &attrs[k].0;
            let value = &attrs[k].1;
            if str_eq(key.as_str(), "class") {
                el.raw_attributes.class = Some(
                    RawAttributeValue::Raw { value: value.clone(), up_to_date: false },
                );
                el.classes = split_whitespace(value.as_str());
            } else if str_eq(key.as_str(), "id") {
                el.raw_attributes.id = Some(
                    RawAttributeValue::Raw { value: value.clone(), up_to_date: false },
                );
                el.id = Some(value.clone());
            } else if str_eq(key.as_str(), "style") {
                proof {
                    lemma_attr_last_present(attrs@, "style"@, k as int);
                }
                return Err(
                    CompileFailure::Structure(StructureViolation::UnsupportedStyleAttribute),
                );
            } else {
                self.reporter.add_diagnostic(
                    Diagnostic {
                        kind: DiagnosticKind::InvalidAttribute {
                            el: "Unstyled".to_owned(),
                            attr: key.clone(),
                        },
                        location: Some((self.file_id, pos)),
                        min_level: Level::Info,
                    },
                );
            }
            proof {
                reveal_strlit("class");
                reveal_strlit("id");
                reveal_strlit("style");
                assert("class"@.len() == 5);
                assert("id"@.len() == 2);
                assert("style"@.len() == 5);
                assert("class"@[0] != "style"@[0]);
                assert("class"@ != "style"@);
                assert(spec_attr_last(attrs@.take(k + 1), "style"@) is None);
            }
            k = k + 1;
        }
        proof {
            assert(attrs@.take(attrs@.len() as int) =~= attrs@);
        }
        let ghost new_index = self.tree@.len();
        let node = parent.append(&mut self.tree, el);
        proof {
            assert(self.tree@[new_index as int].data == el);
        }
        if self_closing {
            proof {
                let all = seq![(parent.index as int, attrs@)];
                assert(all[0] == (parent.index as int, attrs@));
            }
            Ok(())
        } else {
            let r = self.compile_ui_element(node, events, idx);
            proof {
                match spec_ui_outcome(
                    events@,
                    *old(idx) as int,
                    new_index as int,
                    new_index as int + 1,
                ) {
                    PassRes::Done(o) => {
                        let all = seq![(parent.index as int, attrs@)] + o.nodes;
                        assert forall|j: int| 0 <= j < all.len() implies {
                            let ni = #[trigger] self.tree@[new_index + j];
                            &&& (ni.parent matches Some(p) && p.index as int == all[j].0)
                            &&& unstyled_elem_ok(ni.data, all[j].1)
                        } by {
                            if j == 0 {
                                assert(all[0] == (parent.index as int, attrs@));
                            } else {
                                assert(all[j] == o.nodes[j - 1]);
                                assert(self.tree@[new_index + 1 + (j - 1)] == self.tree@[new_index
                                    + j]);
                            }
                        }
                    },
                    PassRes::Fail(_) => {},
                }
            }
            r
        }
    }

    /// The next stylesheet source that needs outside work, if any.
    pub fn pending_job(&self) -> (r: Option<&StyleJob>)
        requires
            self.well_formed(),
        ensures
            r is Some <==> self.jobs_done < self.jobs@.len(),
    {
        if self.jobs_done < self.jobs.len() {
            Some(&self.jobs[self.jobs_done])
        } else {
            None
        }
    }

    /// The checkpoint: succeeds exactly when every stylesheet source has
    /// been resolved and no `Error` or `Bug` diagnostic was recorded; the
    /// compiled document is handed over on success, the reporter with the
    /// accumulated diagnostics on failure.
    pub fn finish(self) -> (r: Result<CompiledDocument, Reporter>)
        requires
            self.well_formed(),
        ensures
            r is Ok <==> (self.jobs_done == self.jobs@.len() && !crate::diag::has_blocking(
                self.reporter.diagnostics@,
            )),
            r matches Ok(d) ==> d.well_formed() && d.tree == self.tree && d.stylesheet
                == self.stylesheet,
    {
        if self.jobs_done < self.jobs.len() {
            return Err(self.reporter);
        }
        match self.reporter.checkpoint() {
            Ok(_) => Ok(CompiledDocument::new(self.tree, self.stylesheet)),
            Err(_) => Err(self.reporter),
        }
    }
}

/// Whether the text is entirely whitespace.
fn text_is_blank(s: &str) -> (r: bool)
    ensures
        r == (forall|k: int| 0 <= k < s@.len() ==> crate::text::is_ws(s@[k])),
{
    let n = s.unicode_len();
    let mut i: usize = 0;
    while i < n
        invariant
            n == s@.len(),
            i <= n,
            forall|k: int| 0 <= k < i ==> crate::text::is_ws(s@[k]),
        decreases n - i,
    {
        if !crate::text::is_ws_char(s.get_char(i)) {
            return false;
        }
        i = i + 1;
    }
    true
}

/// Compiles document text fetched from `url` into a [`Compilation`]: the
/// element tree, the inline stylesheet rules, the diagnostics so far, and
/// the stylesheet sources that still need fetching or preprocessing.
/// Structural violations and `Error`-level stream diagnostics abort with
/// no document: an abort through the diagnostic path always leaves a
/// blocking diagnostic behind.
pub fn compile(text: &str, url: &str) -> (r: Result<Compilation, CompileAborted>)
    ensures
        r matches Ok(c) ==> {
            &&& c.well_formed()
            &&& c.jobs_done == 0
            &&& c.file_id == 0
            &&& c.base_url@ == url@
            &&& c.reporter.files@.len() == 1
            &&& c.reporter.files@[0].name@ == url@
            &&& c.reporter.files@[0].contents@ == text@
            &&& c.tree@[0].data.data == ElementData::Root(RootElement)
            &&& c.tree@[0].parent is None
        },
        match r {
            Err(a) => a.failure is Reported ==> crate::diag::has_blocking(
                a.reporter.diagnostics@,
            ),
            Ok(_) => true,
        },
{
    let mut reporter = Reporter::new();
    let file_id = reporter.add_file(url.to_owned(), text.to_owned());
    let cs = chars_vec(text);
    let events = tokenize(&cs);
    let tree = Tree::new(
        Element::new(ElementData::Root(RootElement), RawElementAttributes::empty()),
    );
    let mut comp = Compilation {
        tree,
        stylesheet: StyleSheet::new(),
        reporter,
        jobs: Vec::new(),
        jobs_done: 0,
        base_url: url.to_owned(),
        file_id,
    };
    let mut idx: usize = 0;
    match comp.compile_root(&events, &mut idx) {
        Ok(_) => {
            proof {
                assert(crate::tree::wf_at(comp.tree@, 0));
            }
            Ok(comp)
        },
        Err(failure) => Err(CompileAborted { failure, reporter: comp.reporter }),
    }
}

} // verus!
