//! Stylesheet source resolution: locating a `Style` element's source,
//! selecting its type (plain CSS or a Sass-like preprocessed dialect),
//! parsing what is at hand, and deferring what needs fetching or
//! preprocessing to the caller as explicit jobs.

use vstd::prelude::*;

use crate::compiler::{Compilation, CompileFailure, StructureViolation};
use crate::css::CssError;
use crate::diag::{Diagnostic, DiagnosticKind, Level};
use crate::markup::MarkupEvent;
use crate::selector::opt_str_view;
use crate::sourcemap::SourceMap;
use crate::text::{chars_vec, str_eq, string_from_chars};

verus! {

/// The stylesheet dialects a `Style` element can carry.
#[derive(Clone, Copy, PartialEq, Eq, Structural, Debug)]
pub enum StyleType {
    CSS,
    Sass,
    SCSS,
}

/// Where a deferred stylesheet source lives.
#[derive(Debug)]
pub enum StyleJobSource {
    /// Fetch this location's text first.
    Url(String),
    /// The text is already at hand (an inline preprocessed style).
    Inline(String),
}

/// A stylesheet source that needs outside work: fetching for plain CSS
/// from a location, and preprocessing for the Sass-like dialects.
#[derive(Debug)]
pub struct StyleJob {
    pub ty: StyleType,
    pub source: StyleJobSource,
    /// The path handed to the preprocessor for relative-import resolution.
    pub input_path: String,
}

/// The index of the last `.` in `s`, or -1 when there is none.
pub open spec fn last_dot(s: Seq<char>) -> int
    decreases s.len(),
{
    if s.len() == 0 {
        -1
    } else if s[s.len() - 1] == '.' {
        s.len() - 1
    } else {
        last_dot(s.drop_last())
    }
}

/// The style type inferred from a filename: the extension after the last
/// dot selects `css` or `sass` explicitly and anything else (including no
/// dot at all) defaults to `scss`.
pub open spec fn spec_infer_style_type(s: Seq<char>) -> StyleType {
    let d = last_dot(s);
    if d >= 0 {
        if s.skip(d + 1) == "css"@ {
            StyleType::CSS
        } else if s.skip(d + 1) == "sass"@ {
            StyleType::Sass
        } else {
            StyleType::SCSS
        }
    } else {
        StyleType::SCSS
    }
}

proof fn lemma_last_dot_bounds(s: Seq<char>)
    ensures
        -1 <= last_dot(s) < s.len(),
        last_dot(s) >= 0 ==> s[last_dot(s)] == '.',
    decreases s.len(),
{
    if s.len() == 0 {
    } else if s[s.len() - 1] == '.' {
    } else {
        lemma_last_dot_bounds(s.drop_last());
    }
}

/// Infers the style type of a filename as [`spec_infer_style_type`] says.
pub fn infer_style_type(filename: &str) -> (r: StyleType)
    ensures
        r == spec_infer_style_type(filename@),
{
    let cs = chars_vec(filename);
    let n = cs.len();
    let mut i = n;
    proof {
        assert(cs@.take(n as int) =~= cs@);
    }
    while i > 0
        invariant
            i <= n,
            n == cs@.len(),
            cs@ == filename@,
            last_dot(cs@) == last_dot(cs@.take(i as int)),
        decreases i,
    {
        if cs[i - 1] == '.' {
            proof {
                assert(cs@.take(i as int)[i - 1] == cs@[i - 1]);
                assert(last_dot(cs@.take(i as int)) == i - 1);
            }
            // Extension: the characters after the dot.
            let mut ext: Vec<char> = Vec::new();
            let mut k = i;
            while k < n
                invariant
                    i <= k <= n,
                    n == cs@.len(),
                    ext@ == cs@.subrange(i as int, k as int),
                decreases n - k,
            {
                ext.push(cs[k]);
                k = k + 1;
                proof {
                    assert(ext@ =~= cs@.subrange(i as int, k as int));
                }
            }
            proof {
                assert(ext@ =~= cs@.skip(i as int));
            }
            let ext_s = string_from_chars(ext.as_slice());
            if str_eq(ext_s.as_str(), "css") {
                return StyleType::CSS;
            } else if str_eq(ext_s.as_str(), "sass") {
                return StyleType::Sass;
            } else {
                return StyleType::SCSS;
            }
        }
        proof {
            assert(cs@.take(i as int).drop_last() =~= cs@.take(i as int - 1));
            assert(cs@.take(i as int)[i - 1] == cs@[i - 1]);
        }
        i = i - 1;
    }
    proof {
        assert(cs@.take(0) =~= Seq::<char>::empty());
        lemma_last_dot_bounds(cs@);
    }
    StyleType::SCSS
}

/// What `url::Url::join` yields for an absolute base and a reference: the
/// serialized resolved location, or nothing when the base does not parse
/// or the reference cannot be resolved against it. The result depends on
/// the two texts alone.
pub uninterp spec fn url_join_of(base: Seq<char>, rel: Seq<char>) -> Option<Seq<char>>;

/// Relies on url::Url::parse and url::Url::join: resolves `rel` against
/// the absolute location `base`.
#[verifier::external_body]
fn url_join(base: &str, rel: &str) -> (r: Option<String>)
    ensures
        opt_str_view(r) == url_join_of(base@, rel@),
{
    match url::Url::parse(base) {
        Ok(b) => match b.join(rel) {
            Ok(u) => Some(u.as_str().to_owned()),
            Err(_) => None,
        },
        Err(_) => None,
    }
}

/// What the last path segment of a parsed location is, or nothing when the
/// text does not parse as an absolute location or has no segmented path.
/// The result depends on the text alone.
pub uninterp spec fn url_last_segment_of(u: Seq<char>) -> Option<Seq<char>>;

/// Relies on url::Url::parse and url::Url::path_segments: the final
/// segment of the location's path.
#[verifier::external_body]
fn url_last_path_segment(u: &str) -> (r: Option<String>)
    ensures
        opt_str_view(r) == url_last_segment_of(u@),
{
    match url::Url::parse(u) {
        Ok(p) => match p.path_segments() {
            Some(segments) => segments.last().map(|x| x.to_owned()),
            None => None,
        },
        Err(_) => None,
    }
}

/// The value of the last `src` attribute in a style element's attribute
/// list, if any.
pub open spec fn spec_src_attr(attrs: Seq<(String, String)>) -> Option<Seq<char>>
    decreases attrs.len(),
{
    if attrs.len() == 0 {
        None
    } else {
        let last = attrs[attrs.len() - 1];
        if last.0@ == "src"@ {
            Some(last.1@)
        } else {
            spec_src_attr(attrs.drop_last())
        }
    }
}

/// The style type a `type` attribute value names, if recognized (ASCII
/// case does not matter).
pub open spec fn spec_recognized_type(v: Seq<char>) -> Option<StyleType> {
    if crate::css::spec_keyword_matches(v, "css"@) {
        Some(StyleType::CSS)
    } else if crate::css::spec_keyword_matches(v, "sass"@) {
        Some(StyleType::Sass)
    } else if crate::css::spec_keyword_matches(v, "scss"@) {
        Some(StyleType::SCSS)
    } else {
        None
    }
}

/// The type named by the last recognized `type` attribute, if any;
/// unrecognized values only draw a diagnostic and select nothing.
pub open spec fn spec_ty_attr(attrs: Seq<(String, String)>) -> Option<StyleType>
    decreases attrs.len(),
{
    if attrs.len() == 0 {
        None
    } else {
        let last = attrs[attrs.len() - 1];
        if last.0@ == "type"@ && spec_recognized_type(last.1@) is Some {
            spec_recognized_type(last.1@)
        } else {
            spec_ty_attr(attrs.drop_last())
        }
    }
}

/// The keys of the attributes a `Style` element notes with an `Info`
/// diagnostic: everything but `src` and a recognized `type`; a `type` with
/// an unrecognized value is noted too.
pub open spec fn spec_noted_style_attrs(attrs: Seq<(String, String)>) -> Seq<Seq<char>>
    decreases attrs.len(),
{
    if attrs.len() == 0 {
        Seq::empty()
    } else {
        let rest = spec_noted_style_attrs(attrs.drop_last());
        let last = attrs.last();
        if last.0@ == "src"@ || (last.0@ == "type"@ && spec_recognized_type(last.1@) is Some) {
            rest
        } else {
            rest.push(last.0@)
        }
    }
}

/// The type a self-closing style element's source is processed as: the
/// `type` attribute when recognized, else the inference over the resolved
/// location's filename, else the preprocessed default.
pub open spec fn spec_style_type_for(attrs: Seq<(String, String)>, joined: Seq<char>) -> StyleType {
    match spec_ty_attr(attrs) {
        Some(t) => t,
        None => match url_last_segment_of(joined) {
            Some(f) => spec_infer_style_type(f),
            None => StyleType::SCSS,
        },
    }
}

/// Where a deferred source lives, as plain values.
pub enum JobSrcV {
    Url(Seq<char>),
    Inline(Seq<char>),
}

/// The view of a deferred style job.
pub struct JobV {
    pub ty: StyleType,
    pub source: JobSrcV,
    pub input_path: Seq<char>,
}

/// The view of one style job.
pub open spec fn job_view(j: StyleJob) -> JobV {
    JobV {
        ty: j.ty,
        source: match j.source {
            StyleJobSource::Url(u) => JobSrcV::Url(u@),
            StyleJobSource::Inline(t) => JobSrcV::Inline(t@),
        },
        input_path: j.input_path@,
    }
}

/// The view of a job sequence.
pub open spec fn jobs_view(js: Seq<StyleJob>) -> Seq<JobV> {
    js.map_values(|j: StyleJob| job_view(j))
}

/// Appending a job extends the view by its view.
pub proof fn lemma_jobs_view_push(js: Seq<StyleJob>, j: StyleJob)
    ensures
        jobs_view(js.push(j)) == jobs_view(js).push(job_view(j)),
{
    let a = jobs_view(js.push(j));
    let b = jobs_view(js).push(job_view(j));
    assert forall|i: int| 0 <= i < a.len() implies a[i] == b[i] by {}
    assert(a =~= b);
}

/// The view of a job concatenation is the concatenation of the views.
pub proof fn lemma_jobs_view_concat(a: Seq<StyleJob>, b: Seq<StyleJob>)
    ensures
        jobs_view(a + b) == jobs_view(a) + jobs_view(b),
{
    let x = jobs_view(a + b);
    let y = jobs_view(a) + jobs_view(b);
    assert forall|i: int| 0 <= i < x.len() implies x[i] == y[i] by {}
    assert(x =~= y);
}

/// The text content of an inline style element from `idx` on: the `Text`
/// runs up to its closing tag (comments pass), with the index just past the
/// closing tag; nothing where other markup interrupts.
pub open spec fn spec_inline_text(events: Seq<MarkupEvent>, idx: int) -> Option<(Seq<char>, int)>
    decreases events.len() - idx when 0 <= idx <= events.len()
{
    if idx >= events.len() {
        Some((Seq::empty(), idx))
    } else {
        match events[idx] {
            MarkupEvent::Text { text, .. } => match spec_inline_text(events, idx + 1) {
                Some(p) => Some((text@ + p.0, p.1)),
                None => None,
            },
            MarkupEvent::Comment { .. } => spec_inline_text(events, idx + 1),
            MarkupEvent::End { .. } => Some((Seq::empty(), idx + 1)),
            _ => None,
        }
    }
}

pub proof fn lemma_inline_text_bounds(events: Seq<MarkupEvent>, idx: int)
    requires
        0 <= idx <= events.len(),
    ensures
        spec_inline_text(events, idx) matches Some(p) ==> idx <= p.1 <= events.len(),
    decreases events.len() - idx,
{
    if idx < events.len() {
        match events[idx] {
            MarkupEvent::Text { .. } => lemma_inline_text_bounds(events, idx + 1),
            MarkupEvent::Comment { .. } => lemma_inline_text_bounds(events, idx + 1),
            _ => {},
        }
    }
}

/// The outcome of one `Style` element: what it appends — a deferred job, or
/// parsed rules for inline plain CSS — or how it fails.
pub open spec fn spec_style_outcome(
    events: Seq<MarkupEvent>,
    idx: int,
    attrs: Seq<(String, String)>,
    self_closing: bool,
    base: Seq<char>,
) -> crate::compiler::PassRes {
    if self_closing {
        match spec_src_attr(attrs) {
            None => crate::compiler::PassRes::Fail(
                crate::compiler::FailV::Structure(
                    crate::compiler::ViolationV::MissingStyleSource,
                ),
            ),
            Some(s) => match url_join_of(base, s) {
                None => crate::compiler::PassRes::Fail(crate::compiler::FailV::Reported),
                Some(u) => crate::compiler::PassRes::Done(
                    crate::compiler::PassOut {
                        idx,
                        nodes: Seq::empty(),
                        rules: Seq::empty(),
                        jobs: seq![
                            JobV {
                                ty: spec_style_type_for(attrs, u),
                                source: JobSrcV::Url(u),
                                input_path: u,
                            },
                        ],
                    },
                ),
            },
        }
    } else {
        match spec_inline_text(events, idx) {
            None => crate::compiler::PassRes::Fail(crate::compiler::FailV::Reported),
            Some(p) => {
                let t = match spec_ty_attr(attrs) {
                    Some(t) => t,
                    None => StyleType::SCSS,
                };
                if t == StyleType::CSS {
                    let (rs, ok) = crate::css::spec_stylesheet_rules(p.0);
                    if ok {
                        crate::compiler::PassRes::Done(
                            crate::compiler::PassOut {
                                idx: p.1,
                                nodes: Seq::empty(),
                                rules: rs,
                                jobs: Seq::empty(),
                            },
                        )
                    } else {
                        crate::compiler::PassRes::Fail(crate::compiler::FailV::Reported)
                    }
                } else {
                    crate::compiler::PassRes::Done(
                        crate::compiler::PassOut {
                            idx: p.1,
                            nodes: Seq::empty(),
                            rules: Seq::empty(),
                            jobs: seq![
                                JobV {
                                    ty: t,
                                    source: JobSrcV::Inline(p.0),
                                    input_path: "file:///C/bar.txt"@,
                                },
                            ],
                        },
                    )
                }
            },
        }
    }
}

impl Compilation {
    /// One `Style` element. Self-closing: the mandatory `src` reference is
    /// resolved against the document's location and the type is taken from
    /// the `type` attribute or inferred from the filename; the source
    /// becomes a deferred job. Inline: the element's text is the source;
    /// plain CSS is parsed on the spot with this element's line offset,
    /// the preprocessed dialects become deferred jobs.
    pub fn compile_style(
        &mut self,
        attrs: &Vec<(String, String)>,
        self_closing: bool,
        pos: usize,
        events: &Vec<MarkupEvent>,
        idx: &mut usize,
    ) -> (r: Result<(), CompileFailure>)
        requires
            old(self).well_formed(),
            *old(idx) <= events@.len(),
        ensures
            final(self).well_formed(),
            *old(idx) <= *final(idx) <= events@.len(),
            final(self).tree == old(self).tree,
            final(self).jobs_done == old(self).jobs_done,
            final(self).file_id == old(self).file_id,
            final(self).base_url == old(self).base_url,
            final(self).reporter.files == old(self).reporter.files,
            r matches Err(CompileFailure::Reported) ==> crate::diag::has_blocking(
                final(self).reporter.diagnostics@,
            ),
            // A self-closing style element must carry a source reference.
            self_closing ==> (r == Err::<(), CompileFailure>(
                CompileFailure::Structure(StructureViolation::MissingStyleSource),
            ) <==> spec_src_attr(attrs@) is None),
            // A reference that cannot be resolved against the document's
            // location is a reported failure.
            self_closing && (match spec_src_attr(attrs@) {
                Some(s) => url_join_of(old(self).base_url@, s) is None,
                None => false,
            }) ==> r matches Err(CompileFailure::Reported),
            // Otherwise exactly one job is appended: the resolved location
            // to fetch, typed by attribute or filename inference.
            self_closing && (match spec_src_attr(attrs@) {
                Some(s) => url_join_of(old(self).base_url@, s) is Some,
                None => false,
            }) ==> {
                &&& r is Ok
                &&& final(self).jobs@.len() == old(self).jobs@.len() + 1
                &&& (forall|j: int|
                    0 <= j < old(self).jobs@.len() ==> final(self).jobs@[j] == old(self).jobs@[j])
                &&& (match spec_src_attr(attrs@) {
                    Some(s) => match url_join_of(old(self).base_url@, s) {
                        Some(u) => {
                            let job = final(self).jobs@.last();
                            &&& job.ty == spec_style_type_for(attrs@, u)
                            &&& (job.source matches StyleJobSource::Url(loc) && loc@ == u)
                            &&& job.input_path@ == u
                        },
                        None => false,
                    },
                    None => false,
                })
            },
            // Each attribute that is neither `src` nor a recognized `type`
            // draws one `Info`-level `InvalidAttribute` diagnostic at the
            // element's position, in attribute order.
            final(self).reporter.diagnostics@.len() >= old(self).reporter.diagnostics@.len()
                + spec_noted_style_attrs(attrs@).len(),
            forall|j: int|
                0 <= j < old(self).reporter.diagnostics@.len()
                    ==> final(self).reporter.diagnostics@[j]
                    == old(self).reporter.diagnostics@[j],
            forall|j: int|
                0 <= j < spec_noted_style_attrs(attrs@).len() ==> {
                    let d = #[trigger] final(self).reporter.diagnostics@[old(
                        self,
                    ).reporter.diagnostics@.len() + j];
                    &&& (d.kind matches DiagnosticKind::InvalidAttribute { el, attr }
                        && el@ == "Style"@ && attr@ == spec_noted_style_attrs(attrs@)[j])
                    &&& d.location == Some((old(self).file_id, pos))
                    &&& d.min_level == Level::Info
                },
            // The whole element, under its grammar: what it appends —
            // parsed inline rules or one deferred job — or how it fails.
            final(self).stylesheet.rules@.len() >= old(self).stylesheet.rules@.len(),
            forall|k: int|
                0 <= k < old(self).stylesheet.rules@.len() ==> final(self).stylesheet.rules@[k]
                    == old(self).stylesheet.rules@[k],
            final(self).jobs@.len() >= old(self).jobs@.len(),
            forall|k: int|
                0 <= k < old(self).jobs@.len() ==> final(self).jobs@[k] == old(self).jobs@[k],
            match spec_style_outcome(
                events@,
                *old(idx) as int,
                attrs@,
                self_closing,
                old(self).base_url@,
            ) {
                crate::compiler::PassRes::Done(o) => {
                    &&& r is Ok
                    &&& *final(idx) as int == o.idx
                    &&& final(self).stylesheet.rules@.len() == old(
                        self,
                    ).stylesheet.rules@.len() + o.rules.len()
                    &&& crate::style::rules_view(
                        final(self).stylesheet.rules@.skip(
                            old(self).stylesheet.rules@.len() as int,
                        ),
                    ) == o.rules
                    &&& final(self).jobs@.len() == old(self).jobs@.len() + o.jobs.len()
                    &&& jobs_view(final(self).jobs@.skip(old(self).jobs@.len() as int)) == o.jobs
                },
                crate::compiler::PassRes::Fail(fv) => r matches Err(f)
                    && crate::compiler::fail_view(f) == fv,
            },
        decreases events@.len() - *old(idx), 0int,
    {
        let mut src: Option<String> = None;
        let mut ty: Option<StyleType> = None;
        let mut k: usize = 0;
        proof {
            assert(attrs@.take(0) =~= Seq::<(String, String)>::empty());
        }
        while k < attrs.len()
            invariant
                self.well_formed(),
                self.tree == old(self).tree,
                self.jobs == old(self).jobs,
                self.jobs_done == old(self).jobs_done,
                self.file_id == old(self).file_id,
                self.base_url == old(self).base_url,
                self.stylesheet == old(self).stylesheet,
                self.reporter.files == old(self).reporter.files,
                self.reporter.diagnostics@.len() == old(self).reporter.diagnostics@.len()
                    + spec_noted_style_attrs(attrs@.take(k as int)).len(),
                forall|j: int|
                    0 <= j < old(self).reporter.diagnostics@.len()
                        ==> self.reporter.diagnostics@[j] == old(self).reporter.diagnostics@[j],
                forall|j: int|
                    0 <= j < spec_noted_style_attrs(attrs@.take(k as int)).len() ==> {
                        let d = #[trigger] self.reporter.diagnostics@[old(
                            self,
                        ).reporter.diagnostics@.len() + j];
                        &&& (d.kind matches DiagnosticKind::InvalidAttribute { el, attr }
                            && el@ == "Style"@ && attr@ == spec_noted_style_attrs(
                            attrs@.take(k as int),
                        )[j])
                        &&& d.location == Some((old(self).file_id, pos))
                        &&& d.min_level == Level::Info
                    },
                k <= attrs@.len(),
                opt_str_view(src) == spec_src_attr(attrs@.take(k as int)),
                ty == spec_ty_attr(attrs@.take(k as int)),
            decreases attrs@.len() - k,
        {
            proof {
                assert(attrs@.take(k + 1).drop_last() =~= attrs@.take(k as int));
                assert(attrs@.take(k + 1).last() == attrs@[k as int]);
            }
            let key = &attrs[k].0;
            let value = &attrs[k].1;
            if str_eq(key.as_str(), "src") {
                src = Some(value.clone());
            } else if str_eq(key.as_str(), "type") {
                if crate::css::keyword_matches(value.as_str(), "css") {
                    ty = Some(StyleType::CSS);
                } else if crate::css::keyword_matches(value.as_str(), "sass") {
                    ty = Some(StyleType::Sass);
                } else if crate::css::keyword_matches(value.as_str(), "scss") {
                    ty = Some(StyleType::SCSS);
                } else {
                    self.reporter.add_diagnostic(
                        Diagnostic {
                            kind: DiagnosticKind::InvalidAttribute {
                                el: "Style".to_owned(),
                                attr: key.clone(),
                            },
                            location: Some((self.file_id, pos)),
                            min_level: Level::Info,
                        },
                    );
                }
            } else {
                self.reporter.add_diagnostic(
                    Diagnostic {
                        kind: DiagnosticKind::InvalidAttribute {
                            el: "Style".to_owned(),
                            attr: key.clone(),
                        },
                        location: Some((self.file_id, pos)),
                        min_level: Level::Info,
                    },
                );
            }
            proof {
                reveal_strlit("src");
                reveal_strlit("type");
                assert("src"@.len() == 3);
                assert("type"@.len() == 4);
                assert(opt_str_view(src) == spec_src_attr(attrs@.take(k + 1)));
                assert(ty == spec_ty_attr(attrs@.take(k + 1)));
            }
            k = k + 1;
        }
        proof {
            assert(attrs@.take(attrs@.len() as int) =~= attrs@);
        }
        if self_closing {
            let src = match src {
                Some(s) => s,
                None => {
                    return Err(
                        CompileFailure::Structure(StructureViolation::MissingStyleSource),
                    );
                },
            };
            let joined = match url_join(self.base_url.as_str(), src.as_str()) {
                Some(u) => u,
                None => {
                    self.reporter.add_diagnostic(
                        Diagnostic {
                            kind: DiagnosticKind::UrlParseError(src),
                            location: Some((self.file_id, pos)),
                            min_level: Level::Error,
                        },
                    );
                    proof {
                        let ds = self.reporter.diagnostics@;
                        assert(crate::diag::is_blocking(ds[ds.len() - 1].min_level));
                    }
                    return Err(CompileFailure::Reported);
                },
            };
            let ty = match ty {
                Some(t) => t,
                None => match url_last_path_segment(joined.as_str()) {
                    Some(filename) => infer_style_type(filename.as_str()),
                    None => StyleType::SCSS,
                },
            };
            let input_path = joined.clone();
            let ghost prevjobs = self.jobs@;
            self.jobs.push(StyleJob { ty, source: StyleJobSource::Url(joined), input_path });
            proof {
                let s = self.jobs@.skip(prevjobs.len() as int);
                assert(s =~= seq![self.jobs@.last()]);
                assert(jobs_view(s) =~= seq![job_view(self.jobs@.last())]);
                assert(self.stylesheet.rules@.skip(old(self).stylesheet.rules@.len() as int)
                    =~= Seq::<crate::style::StyleRule>::empty());
                assert(crate::style::rules_view(Seq::<crate::style::StyleRule>::empty())
                    =~= Seq::<crate::style::RuleView>::empty());
            }
            Ok(())
        } else {
            // A `src` reference belongs on self-closing style elements
            // only.
            if src.is_some() {
                self.reporter.add_diagnostic(
                    Diagnostic {
                        kind: DiagnosticKind::InvalidAttribute {
                            el: "Style".to_owned(),
                            attr: "src".to_owned(),
                        },
                        location: Some((self.file_id, pos)),
                        min_level: Level::Info,
                    },
                );
            }
            // Inline: collect the element's text up to its closing tag.
            let mut text = String::new();
            let ghost pin = *idx as int;
            proof {
                match spec_inline_text(events@, pin) {
                    Some(p) => {
                        assert(text@ + p.0 =~= p.0);
                    },
                    None => {},
                }
            }
            loop
                invariant_except_break
                    match spec_inline_text(events@, *idx as int) {
                        Some(p) => spec_inline_text(events@, pin) == Some((text@ + p.0, p.1)),
                        None => spec_inline_text(events@, pin) is None,
                    },
                invariant
                    !self_closing,
                    self.well_formed(),
                    self.tree == old(self).tree,
                    self.stylesheet == old(self).stylesheet,
                    self.jobs == old(self).jobs,
                    self.jobs_done == old(self).jobs_done,
                    self.file_id == old(self).file_id,
                    self.base_url == old(self).base_url,
                    self.reporter.files == old(self).reporter.files,
                    self.reporter.diagnostics@.len() >= old(self).reporter.diagnostics@.len()
                        + spec_noted_style_attrs(attrs@).len(),
                    forall|j: int|
                        0 <= j < old(self).reporter.diagnostics@.len()
                            ==> self.reporter.diagnostics@[j] == old(
                            self,
                        ).reporter.diagnostics@[j],
                    forall|j: int|
                        0 <= j < spec_noted_style_attrs(attrs@).len() ==> {
                            let d = #[trigger] self.reporter.diagnostics@[old(
                                self,
                            ).reporter.diagnostics@.len() + j];
                            &&& (d.kind matches DiagnosticKind::InvalidAttribute { el, attr }
                                && el@ == "Style"@ && attr@ == spec_noted_style_attrs(attrs@)[j])
                            &&& d.location == Some((old(self).file_id, pos))
                            &&& d.min_level == Level::Info
                        },
                    pin == *old(idx) as int,
                    *old(idx) <= *idx <= events@.len(),
                ensures
                    self.well_formed(),
                    self.tree == old(self).tree,
                    self.stylesheet == old(self).stylesheet,
                    self.jobs == old(self).jobs,
                    self.jobs_done == old(self).jobs_done,
                    self.file_id == old(self).file_id,
                    self.base_url == old(self).base_url,
                    self.reporter.files == old(self).reporter.files,
                    self.reporter.diagnostics@.len() >= old(self).reporter.diagnostics@.len()
                        + spec_noted_style_attrs(attrs@).len(),
                    forall|j: int|
                        0 <= j < old(self).reporter.diagnostics@.len()
                            ==> self.reporter.diagnostics@[j] == old(
                            self,
                        ).reporter.diagnostics@[j],
                    forall|j: int|
                        0 <= j < spec_noted_style_attrs(attrs@).len() ==> {
                            let d = #[trigger] self.reporter.diagnostics@[old(
                                self,
                            ).reporter.diagnostics@.len() + j];
                            &&& (d.kind matches DiagnosticKind::InvalidAttribute { el, attr }
                                && el@ == "Style"@ && attr@ == spec_noted_style_attrs(attrs@)[j])
                            &&& d.location == Some((old(self).file_id, pos))
                            &&& d.min_level == Level::Info
                        },
                    *old(idx) <= *idx <= events@.len(),
                    spec_inline_text(events@, pin) == Some((text@, *idx as int)),
                decreases events@.len() - *idx,
            {
                if *idx >= events.len() {
                    proof {
                        assert(text@ + Seq::<char>::empty() =~= text@);
                    }
                    break ;
                }
                let at = *idx;
                *idx = *idx + 1;
                match &events[at] {
                    MarkupEvent::Text { text: t, .. } => {
                        let ghost prevtext = text@;
                        text.append(t.as_str());
                        proof {
                            match spec_inline_text(events@, *idx as int) {
                                Some(p) => {
                                    assert(prevtext + (t@ + p.0) =~= text@ + p.0);
                                },
                                None => {},
                            }
                        }
                    },
                    MarkupEvent::Comment { .. } => {},
                    MarkupEvent::End { .. } => {
                        proof {
                            assert(text@ + Seq::<char>::empty() =~= text@);
                        }
                        break ;
                    },
                    ev => {
                        match self.handle_unexpected_in_style(ev) {
                            Ok(_) => {},
                            Err(_) => {
                                return Err(CompileFailure::Reported);
                            },
                        }
                    },
                }
            }
            let ty = match ty {
                Some(t) => t,
                None => StyleType::SCSS,
            };
            match ty {
                StyleType::CSS => {
                    let offset = self.reporter.get_line(self.file_id, pos);
                    let parse_result = self.stylesheet.parse(text.as_str(), offset);
                    match parse_result {
                        Ok(_) => Ok(()),
                        Err(e) => {
                            let p = self.reporter.get_position(self.file_id, e.line, e.column);
                            self.reporter.add_diagnostic(
                                Diagnostic {
                                    kind: DiagnosticKind::CssParseError(e),
                                    location: Some((self.file_id, p)),
                                    min_level: Level::Error,
                                },
                            );
                            proof {
                                let ds = self.reporter.diagnostics@;
                                assert(crate::diag::is_blocking(ds[ds.len() - 1].min_level));
                            }
                            Err(CompileFailure::Reported)
                        },
                    }
                },
                _ => {
                    // The preprocessor sees inline sources under a fixed
                    // placeholder path.
                    let ghost prevjobs = self.jobs@;
                    self.jobs.push(
                        StyleJob {
                            ty,
                            source: StyleJobSource::Inline(text),
                            input_path: "file:///C/bar.txt".to_owned(),
                        },
                    );
                    proof {
                        let s = self.jobs@.skip(prevjobs.len() as int);
                        assert(s =~= seq![self.jobs@.last()]);
                        assert(jobs_view(s) =~= seq![job_view(self.jobs@.last())]);
                        assert(self.stylesheet.rules@.skip(
                            old(self).stylesheet.rules@.len() as int,
                        ) =~= Seq::<crate::style::StyleRule>::empty());
                        assert(crate::style::rules_view(Seq::<crate::style::StyleRule>::empty())
                            =~= Seq::<crate::style::RuleView>::empty());
                    }
                    Ok(())
                },
            }
        }
    }

    /// Reports an event that inline style text cannot contain.
    fn handle_unexpected_in_style(&mut self, ev: &MarkupEvent) -> (r: Result<(), ()>)
        requires
            old(self).well_formed(),
        ensures
            final(self).well_formed(),
            final(self).tree == old(self).tree,
            final(self).stylesheet == old(self).stylesheet,
            final(self).jobs == old(self).jobs,
            final(self).jobs_done == old(self).jobs_done,
            final(self).file_id == old(self).file_id,
            final(self).base_url == old(self).base_url,
            final(self).reporter.files == old(self).reporter.files,
            final(self).reporter.diagnostics@.len() >= old(self).reporter.diagnostics@.len(),
            forall|j: int|
                0 <= j < old(self).reporter.diagnostics@.len()
                    ==> final(self).reporter.diagnostics@[j]
                    == old(self).reporter.diagnostics@[j],
            r is Err,
            crate::diag::has_blocking(final(self).reporter.diagnostics@),
    {
        let (kind, pos): (DiagnosticKind, usize) = match ev {
            MarkupEvent::CData { pos } => (DiagnosticKind::UnexpectedCData, *pos),
            MarkupEvent::Decl { pos } => (DiagnosticKind::UnexpectedDecl, *pos),
            MarkupEvent::PI { pos } => (DiagnosticKind::UnexpectedPI, *pos),
            MarkupEvent::DocType { pos } => (DiagnosticKind::UnexpectedDocType, *pos),
            MarkupEvent::Eof { pos } => (DiagnosticKind::UnexpectedEof, *pos),
            MarkupEvent::Malformed { pos, detail } => (
                DiagnosticKind::ParseError(detail.clone()),
                *pos,
            ),
            MarkupEvent::Start { name, pos, .. } => (
                DiagnosticKind::InvalidContext { el: name.clone(), parent: "Style".to_owned() },
                *pos,
            ),
            MarkupEvent::Empty { name, pos, .. } => (
                DiagnosticKind::InvalidContext { el: name.clone(), parent: "Style".to_owned() },
                *pos,
            ),
            MarkupEvent::Text { pos, .. } => (DiagnosticKind::UnexpectedText, *pos),
            MarkupEvent::Comment { pos } => (DiagnosticKind::UnexpectedText, *pos),
            MarkupEvent::End { pos, .. } => (DiagnosticKind::UnexpectedEof, *pos),
        };
        self.reporter.add_diagnostic(
            Diagnostic { kind, location: Some((self.file_id, pos)), min_level: Level::Error },
        );
        proof {
            let ds = self.reporter.diagnostics@;
            assert(crate::diag::is_blocking(ds[ds.len() - 1].min_level));
        }
        Err(())
    }

    /// Resolves the pending plain-CSS job with the text fetched from its
    /// location: the text is registered as a new diagnostic file and
    /// parsed with no line offset; a parse failure is recorded as an
    /// `Error`-level diagnostic in the new file. Consumes the job exactly
    /// when the pending job is a plain-CSS one.
    pub fn supply_css(&mut self, text: &str) -> (r: bool)
        requires
            old(self).well_formed(),
        ensures
            final(self).well_formed(),
            r <==> (old(self).jobs_done < old(self).jobs@.len() && old(self).jobs@[old(self).jobs_done as int].ty == StyleType::CSS),
            r ==> final(self).jobs_done == old(self).jobs_done + 1,
            r ==> {
                &&& final(self).reporter.files@.len() == old(self).reporter.files@.len() + 1
                &&& final(self).reporter.files@.last().contents@ == text@
                &&& final(self).reporter.files@.last().name@ == (match old(self).jobs@[old(self).jobs_done as int].source {
                    StyleJobSource::Url(u) => u@,
                    StyleJobSource::Inline(_) => Seq::<char>::empty(),
                })
                &&& final(self).stylesheet.rules@.len() >= old(self).stylesheet.rules@.len()
                &&& (forall|k: int|
                    0 <= k < old(self).stylesheet.rules@.len() ==> final(self).stylesheet.rules@[k] == old(self).stylesheet.rules@[k])
                // The fetched text is parsed into the stylesheet: exactly
                // the text's qualified rules are appended, and a parse
                // error is recorded as one blocking diagnostic in the new
                // file.
                &&& ({
                    let (rs, ok) = crate::css::spec_stylesheet_rules(text@);
                    &&& final(self).stylesheet.rules@.len() == old(self).stylesheet.rules@.len()
                        + rs.len()
                    &&& crate::style::rules_view(
                        final(self).stylesheet.rules@.skip(
                            old(self).stylesheet.rules@.len() as int,
                        ),
                    ) == rs
                    &&& (ok ==> final(self).reporter.diagnostics@ == old(
                        self,
                    ).reporter.diagnostics@)
                    &&& (!ok ==> final(self).reporter.diagnostics@.len() == old(
                        self,
                    ).reporter.diagnostics@.len() + 1 && {
                        let d = final(self).reporter.diagnostics@.last();
                        &&& d.kind is CssParseError
                        &&& d.min_level == Level::Error
                        &&& (d.location matches Some(loc) && loc.0 == old(
                            self,
                        ).reporter.files@.len())
                    })
                })
            },
            !r ==> *final(self) == *old(self),
    {
        if self.jobs_done >= self.jobs.len() {
            return false;
        }
        let is_css = match self.jobs[self.jobs_done].ty {
            StyleType::CSS => true,
            _ => false,
        };
        if !is_css {
            return false;
        }
        let name = match &self.jobs[self.jobs_done].source {
            StyleJobSource::Url(u) => u.clone(),
            StyleJobSource::Inline(_) => String::new(),
        };
        let fid = self.reporter.add_file(name, text.to_owned());
        let parse_result = self.stylesheet.parse(text, 0);
        match parse_result {
            Ok(_) => {},
            Err(e) => {
                let p = self.reporter.get_position(fid, e.line, e.column);
                self.reporter.add_diagnostic(
                    Diagnostic {
                        kind: DiagnosticKind::CssParseError(e),
                        location: Some((fid, p)),
                        min_level: Level::Error,
                    },
                );
            },
        }
        self.jobs_done = self.jobs_done + 1;
        true
    }

    /// Resolves the pending preprocessed job with the CSS text and source
    /// map the preprocessor produced: the CSS is parsed with no line
    /// offset, and a parse error is translated through the source map
    /// (greatest-lower-bound policy) back into the original source, which
    /// is registered with the reporter. Consumes the job exactly when the
    /// pending job is a preprocessed-dialect one.
    pub fn supply_preprocessed(&mut self, css: &str, map: &SourceMap) -> (r: bool)
        requires
            old(self).well_formed(),
        ensures
            final(self).well_formed(),
            r <==> (old(self).jobs_done < old(self).jobs@.len() && old(self).jobs@[old(self).jobs_done as int].ty != StyleType::CSS),
            r ==> final(self).jobs_done == old(self).jobs_done + 1,
            r ==> {
                &&& final(self).stylesheet.rules@.len() >= old(self).stylesheet.rules@.len()
                &&& (forall|k: int|
                    0 <= k < old(self).stylesheet.rules@.len() ==> final(self).stylesheet.rules@[k] == old(self).stylesheet.rules@[k])
                // The produced CSS is parsed into the stylesheet: exactly
                // its qualified rules are appended; a parse error becomes
                // one blocking diagnostic whose location, where one can be
                // resolved, is the source map's greatest-lower-bound
                // translation into the registered original source.
                &&& ({
                    let (rs, ok) = crate::css::spec_stylesheet_rules(css@);
                    &&& final(self).stylesheet.rules@.len() == old(self).stylesheet.rules@.len()
                        + rs.len()
                    &&& crate::style::rules_view(
                        final(self).stylesheet.rules@.skip(
                            old(self).stylesheet.rules@.len() as int,
                        ),
                    ) == rs
                    &&& (ok ==> final(self).reporter == old(self).reporter)
                    &&& (!ok ==> final(self).reporter.diagnostics@.len() == old(
                        self,
                    ).reporter.diagnostics@.len() + 1 && {
                        let d = final(self).reporter.diagnostics@.last();
                        &&& d.kind is CssParseError
                        &&& d.min_level == Level::Error
                        &&& match d.location {
                            Some(loc) => exists|gl: int, gc: int, k: int|
                                {
                                    &&& #[trigger] crate::sourcemap::is_glb_mapping(
                                        map.mappings@,
                                        gl,
                                        gc,
                                        k,
                                    )
                                    &&& match map.mappings@[k].origin {
                                        Some(o) => {
                                            &&& o.source < map.sources@.len()
                                            &&& o.source < map.sources_content@.len()
                                            &&& loc.0 == old(self).reporter.files@.len()
                                            &&& loc.1 as int == crate::diag::spec_position(
                                                map.sources_content@[o.source as int]@,
                                                o.line as int,
                                                o.col as int,
                                            )
                                            &&& final(self).reporter.files@.len() == old(
                                                self,
                                            ).reporter.files@.len() + 1
                                            &&& final(self).reporter.files@.last().name@
                                                == map.sources@[o.source as int]@
                                            &&& final(self).reporter.files@.last().contents@
                                                == map.sources_content@[o.source as int]@
                                        },
                                        None => false,
                                    }
                                },
                            None => final(self).reporter.files == old(self).reporter.files,
                        }
                    })
                })
            },
            !r ==> *final(self) == *old(self),
    {
        if self.jobs_done >= self.jobs.len() {
            return false;
        }
        let is_pre = match self.jobs[self.jobs_done].ty {
            StyleType::CSS => false,
            _ => true,
        };
        if !is_pre {
            return false;
        }
        let parse_result = self.stylesheet.parse(css, 0);
        match parse_result {
            Ok(_) => {},
            Err(e) => {
                let location: Option<(usize, usize)> = match map.original_location_for(
                    e.line,
                    e.column,
                ) {
                    Some(m) => match m.origin {
                        Some(o) => {
                            if o.source < map.sources.len() && o.source
                                < map.sources_content.len() {
                                let fid = self.reporter.add_file(
                                    map.sources[o.source].clone(),
                                    map.sources_content[o.source].clone(),
                                );
                                let p = self.reporter.get_position(fid, o.line, o.col);
                                Some((fid, p))
                            } else {
                                None
                            }
                        },
                        None => None,
                    },
                    None => None,
                };
                self.reporter.add_diagnostic(
                    Diagnostic {
                        kind: DiagnosticKind::CssParseError(e),
                        location,
                        min_level: Level::Error,
                    },
                );
            },
        }
        self.jobs_done = self.jobs_done + 1;
        true
    }

    /// Resolves the pending preprocessed job with the structured failure
    /// the preprocessor reported: the failing source is registered and an
    /// `Error`-level diagnostic is recorded at the 0-based `line` and
    /// `col` within it (a preprocessor counting lines from 1 must be
    /// shifted by its caller). Consumes the job exactly when the pending
    /// job is a preprocessed-dialect one.
    pub fn supply_preprocessor_failure(
        &mut self,
        file: String,
        src_text: String,
        line: usize,
        col: usize,
        message: String,
    ) -> (r: bool)
        requires
            old(self).well_formed(),
        ensures
            final(self).well_formed(),
            r <==> (old(self).jobs_done < old(self).jobs@.len() && old(self).jobs@[old(self).jobs_done as int].ty != StyleType::CSS),
            r ==> final(self).jobs_done == old(self).jobs_done + 1,
            r ==> {
                &&& final(self).reporter.files@.len() == old(self).reporter.files@.len() + 1
                &&& final(self).reporter.files@.last().name == file
                &&& final(self).reporter.files@.last().contents == src_text
                &&& final(self).reporter.diagnostics@.len() == old(self).reporter.diagnostics@.len() + 1
                &&& {
                    let d = final(self).reporter.diagnostics@.last();
                    &&& d.kind == DiagnosticKind::PreprocessorError(message)
                    &&& d.min_level == Level::Error
                    &&& (d.location matches Some(loc) && loc.0 == old(self).reporter.files@.len()
                        && loc.1 as int == crate::diag::spec_position(
                        src_text@,
                        line as int,
                        col as int,
                    ))
                }
            },
            !r ==> *final(self) == *old(self),
            r ==> crate::diag::has_blocking(final(self).reporter.diagnostics@),
    {
        if self.jobs_done >= self.jobs.len() {
            return false;
        }
        let is_pre = match self.jobs[self.jobs_done].ty {
            StyleType::CSS => false,
            _ => true,
        };
        if !is_pre {
            return false;
        }
        let fid = self.reporter.add_file(file, src_text);
        let p = self.reporter.get_position(fid, line, col);
        self.reporter.add_diagnostic(
            Diagnostic {
                kind: DiagnosticKind::PreprocessorError(message),
                location: Some((fid, p)),
                min_level: Level::Error,
            },
        );
        proof {
            let ds = self.reporter.diagnostics@;
            assert(crate::diag::is_blocking(ds[ds.len() - 1].min_level));
        }
        self.jobs_done = self.jobs_done + 1;
        true
    }

    /// Resolves the pending job with the failure of its fetch: exactly one
    /// `Error`-level resource diagnostic, `NetworkError` for a network
    /// failure and `IOError` otherwise. Consumes the job exactly when one
    /// is pending.
    pub fn supply_fetch_failure(&mut self, network: bool, message: String) -> (r: bool)
        requires
            old(self).well_formed(),
        ensures
            final(self).well_formed(),
            r <==> old(self).jobs_done < old(self).jobs@.len(),
            r ==> final(self).jobs_done == old(self).jobs_done + 1,
            r ==> final(self).reporter.diagnostics@ == old(self).reporter.diagnostics@.push(
                Diagnostic {
                    kind: if network {
                        DiagnosticKind::NetworkError(message)
                    } else {
                        DiagnosticKind::IOError(message)
                    },
                    location: None,
                    min_level: Level::Error,
                },
            ),
            !r ==> *final(self) == *old(self),
            r ==> crate::diag::has_blocking(final(self).reporter.diagnostics@),
    {
        if self.jobs_done >= self.jobs.len() {
            return false;
        }
        let kind = if network {
            DiagnosticKind::NetworkError(message)
        } else {
            DiagnosticKind::IOError(message)
        };
        self.reporter.add_diagnostic(
            Diagnostic { kind, location: None, min_level: Level::Error },
        );
        proof {
            let ds = self.reporter.diagnostics@;
            assert(crate::diag::is_blocking(ds[ds.len() - 1].min_level));
        }
        self.jobs_done = self.jobs_done + 1;
        true
    }
}

} // verus!
