//! The stylesheet parser: a recursive-descent parser for the CSS subset
//! this engine understands — qualified rules `selector-list { declarations }`
//! over the fixed property set, with no at-rule support.
//!
//! Lengths are parsed into thousandths of a unit (`10.5px` becomes
//! `Px(10500)`); fractional digits beyond the third are truncated.

use vstd::prelude::*;

use crate::selector::{
    compound_view, complex_view, lemma_sel_list_view_push, lemma_tail_view_push, opt_str_view,
    sel_list_view, tail_view, Combinator, ComplexSelector, ComplexView, CompoundSelector,
    CompoundView, SelectorList,
};
use crate::style::{Declaration, RuleView, StyleRule, StyleSheet, Value};
use crate::text::{chars_vec, is_ws, is_ws_char, string_from_chars};

verus! {

/// A position while scanning stylesheet text: index into the character
/// vector, plus the 0-based line and 0-based column of that index.
pub struct Cursor {
    pub pos: usize,
    pub line: usize,
    pub col: usize,
}

/// Cursor sanity relative to the scanned text.
pub open spec fn cursor_ok(cs: Seq<char>, cur: Cursor) -> bool {
    &&& cur.pos <= cs.len()
    &&& cur.line <= cur.pos
    &&& cur.col <= cur.pos
}

/// What went wrong while parsing stylesheet text.
#[derive(Debug)]
pub enum CssErrorKind {
    /// A token that fits no production, carried verbatim.
    UnexpectedToken(String),
    /// Input ended inside a production.
    EndOfInput,
    /// An at-rule was seen; none is supported.
    AtRuleInvalid(String),
    /// A rule or declaration that fits no production.
    QualifiedRuleInvalid,
}

/// A stylesheet parse error with its 0-based line and column.
#[derive(Debug)]
pub struct CssError {
    pub line: usize,
    pub column: usize,
    pub kind: CssErrorKind,
}

/// The position just past the first `*/` at or after `pos`, or the text's
/// end when the comment never closes.
pub open spec fn spec_skip_comment(cs: Seq<char>, pos: int) -> int
    decreases cs.len() - pos when 0 <= pos <= cs.len()
{
    if pos >= cs.len() {
        pos
    } else if cs[pos] == '*' && pos + 1 < cs.len() && cs[pos + 1] == '/' {
        pos + 2
    } else {
        spec_skip_comment(cs, pos + 1)
    }
}

pub proof fn lemma_skip_comment_bounds(cs: Seq<char>, pos: int)
    requires
        0 <= pos <= cs.len(),
    ensures
        pos <= spec_skip_comment(cs, pos) <= cs.len(),
    decreases cs.len() - pos,
{
    if pos >= cs.len() {
    } else if cs[pos] == '*' && pos + 1 < cs.len() && cs[pos + 1] == '/' {
    } else {
        lemma_skip_comment_bounds(cs, pos + 1);
    }
}

/// The position of the next character that is neither whitespace nor part
/// of a `/* ... */` comment.
pub open spec fn spec_skip_ws(cs: Seq<char>, pos: int) -> int
    decreases cs.len() - pos when 0 <= pos <= cs.len()
{
    if pos >= cs.len() {
        pos
    } else if is_ws(cs[pos]) {
        spec_skip_ws(cs, pos + 1)
    } else if cs[pos] == '/' && pos + 1 < cs.len() && cs[pos + 1] == '*' {
        let p2 = spec_skip_comment(cs, pos + 2);
        if pos + 2 <= p2 <= cs.len() {
            spec_skip_ws(cs, p2)
        } else {
            pos
        }
    } else {
        pos
    }
}

pub proof fn lemma_skip_ws_bounds(cs: Seq<char>, pos: int)
    requires
        0 <= pos <= cs.len(),
    ensures
        pos <= spec_skip_ws(cs, pos) <= cs.len(),
    decreases cs.len() - pos,
{
    if pos >= cs.len() {
    } else if is_ws(cs[pos]) {
        lemma_skip_ws_bounds(cs, pos + 1);
    } else if cs[pos] == '/' && pos + 1 < cs.len() && cs[pos + 1] == '*' {
        lemma_skip_comment_bounds(cs, pos + 2);
        lemma_skip_ws_bounds(cs, spec_skip_comment(cs, pos + 2));
    } else {
    }
}

/// The end of the run of identifier characters starting at `pos`.
pub open spec fn spec_ident_end(cs: Seq<char>, pos: int) -> int
    decreases cs.len() - pos when 0 <= pos <= cs.len()
{
    if pos < cs.len() && is_ident_char(cs[pos]) {
        spec_ident_end(cs, pos + 1)
    } else {
        pos
    }
}

pub proof fn lemma_ident_end_bounds(cs: Seq<char>, pos: int)
    requires
        0 <= pos <= cs.len(),
    ensures
        pos <= spec_ident_end(cs, pos) <= cs.len(),
    decreases cs.len() - pos,
{
    if pos < cs.len() && is_ident_char(cs[pos]) {
        lemma_ident_end_bounds(cs, pos + 1);
    }
}

/// The identifier at `pos`, with the position just past it; `None` where no
/// identifier starts there.
pub open spec fn spec_ident(cs: Seq<char>, pos: int) -> Option<(Seq<char>, int)> {
    if 0 <= pos < cs.len() && (is_ident_start(cs[pos]) || (cs[pos] == '-' && pos + 1 < cs.len()
        && is_ident_start(cs[pos + 1]))) {
        let e = spec_ident_end(cs, pos + 1);
        if pos + 1 <= e <= cs.len() {
            Some((cs.subrange(pos, e), e))
        } else {
            None
        }
    } else {
        None
    }
}

/// A compound view with no parts.
pub open spec fn empty_compound() -> CompoundView {
    CompoundView { local_name: None, id: None, classes: Seq::empty() }
}

/// The `.class` / `#id` parts of a compound selector from `pos` on, folded
/// onto `acc`; `any` records whether a part was already seen.
pub open spec fn spec_compound_parts(cs: Seq<char>, pos: int, acc: CompoundView, any: bool) -> Option<(CompoundView, int)>
    decreases cs.len() - pos when 0 <= pos <= cs.len()
{
    if pos >= cs.len() {
        if any { Some((acc, pos)) } else { None }
    } else if cs[pos] == '.' {
        match spec_ident(cs, pos + 1) {
            Some((nm, e)) => if pos + 1 < e <= cs.len() {
                spec_compound_parts(
                    cs,
                    e,
                    CompoundView { local_name: acc.local_name, id: acc.id, classes: acc.classes.push(nm) },
                    true,
                )
            } else {
                None
            },
            None => None,
        }
    } else if cs[pos] == '#' {
        match spec_ident(cs, pos + 1) {
            Some((nm, e)) => if pos + 1 < e <= cs.len() {
                spec_compound_parts(
                    cs,
                    e,
                    CompoundView { local_name: acc.local_name, id: Some(nm), classes: acc.classes },
                    true,
                )
            } else {
                None
            },
            None => None,
        }
    } else {
        if any { Some((acc, pos)) } else { None }
    }
}

/// One compound selector at `pos`: `*`, a type name, or nothing, followed by
/// `.class` / `#id` parts; at least one part must be present.
pub open spec fn spec_compound(cs: Seq<char>, pos: int) -> Option<(CompoundView, int)> {
    if 0 <= pos <= cs.len() {
        if pos < cs.len() && cs[pos] == '*' {
            spec_compound_parts(cs, pos + 1, empty_compound(), true)
        } else {
            match spec_ident(cs, pos) {
                Some((nm, e)) => spec_compound_parts(
                    cs,
                    e,
                    CompoundView { local_name: Some(nm), id: None, classes: Seq::empty() },
                    true,
                ),
                None => spec_compound_parts(cs, pos, empty_compound(), false),
            }
        }
    } else {
        None
    }
}

pub proof fn lemma_compound_parts_bounds(cs: Seq<char>, pos: int, acc: CompoundView, any: bool)
    requires
        0 <= pos <= cs.len(),
    ensures
        spec_compound_parts(cs, pos, acc, any) matches Some(p) ==> pos <= p.1 <= cs.len(),
        !any ==> (spec_compound_parts(cs, pos, acc, any) matches Some(p) ==> pos < p.1),
    decreases cs.len() - pos,
{
    if pos >= cs.len() {
    } else if cs[pos] == '.' || cs[pos] == '#' {
        match spec_ident(cs, pos + 1) {
            Some((nm, e)) => {
                if pos + 1 < e <= cs.len() {
                    if cs[pos] == '.' {
                        lemma_compound_parts_bounds(
                            cs,
                            e,
                            CompoundView { local_name: acc.local_name, id: acc.id, classes: acc.classes.push(nm) },
                            true,
                        );
                    } else {
                        lemma_compound_parts_bounds(
                            cs,
                            e,
                            CompoundView { local_name: acc.local_name, id: Some(nm), classes: acc.classes },
                            true,
                        );
                    }
                }
            },
            None => {},
        }
    }
}

pub proof fn lemma_compound_bounds(cs: Seq<char>, pos: int)
    requires
        0 <= pos <= cs.len(),
    ensures
        spec_compound(cs, pos) matches Some(p) ==> pos < p.1 <= cs.len(),
{
    if pos < cs.len() && cs[pos] == '*' {
        lemma_compound_parts_bounds(cs, pos + 1, empty_compound(), true);
    } else {
        match spec_ident(cs, pos) {
            Some((nm, e)) => {
                lemma_compound_parts_bounds(
                    cs,
                    e,
                    CompoundView { local_name: Some(nm), id: None, classes: Seq::empty() },
                    true,
                );
            },
            None => {
                lemma_compound_parts_bounds(cs, pos, empty_compound(), false);
            },
        }
    }
}

/// The `(combinator, compound)` pairs of a complex selector from `pos` on,
/// folded onto `head` and `tail`; ends before `,`, `{` or the text's end.
pub open spec fn spec_complex_tail(
    cs: Seq<char>,
    pos: int,
    head: CompoundView,
    tail: Seq<(Combinator, CompoundView)>,
) -> Option<(ComplexView, int)>
    decreases cs.len() - pos when 0 <= pos <= cs.len()
{
    let p1 = spec_skip_ws(cs, pos);
    if !(pos <= p1 <= cs.len()) {
        None
    } else if p1 >= cs.len() {
        Some((ComplexView { head, tail }, p1))
    } else if cs[p1] == ',' || cs[p1] == '{' {
        Some((ComplexView { head, tail }, p1))
    } else if cs[p1] == '>' {
        let p2 = spec_skip_ws(cs, p1 + 1);
        if p1 + 1 <= p2 <= cs.len() {
            match spec_compound(cs, p2) {
                Some((c, p3)) => if pos < p3 <= cs.len() {
                    spec_complex_tail(cs, p3, head, tail.push((Combinator::Child, c)))
                } else {
                    None
                },
                None => None,
            }
        } else {
            None
        }
    } else if p1 > pos {
        match spec_compound(cs, p1) {
            Some((c, p3)) => if pos < p3 <= cs.len() {
                spec_complex_tail(cs, p3, head, tail.push((Combinator::Descendant, c)))
            } else {
                None
            },
            None => None,
        }
    } else {
        None
    }
}

/// One complex selector at `pos`, ending before `,`, `{` or the text's end.
pub open spec fn spec_complex(cs: Seq<char>, pos: int) -> Option<(ComplexView, int)> {
    if 0 <= pos <= cs.len() {
        let p1 = spec_skip_ws(cs, pos);
        if pos <= p1 <= cs.len() {
            match spec_compound(cs, p1) {
                Some((h, p2)) => if p1 < p2 <= cs.len() {
                    spec_complex_tail(cs, p2, h, Seq::empty())
                } else {
                    None
                },
                None => None,
            }
        } else {
            None
        }
    } else {
        None
    }
}

pub proof fn lemma_complex_tail_bounds(
    cs: Seq<char>,
    pos: int,
    head: CompoundView,
    tail: Seq<(Combinator, CompoundView)>,
)
    requires
        0 <= pos <= cs.len(),
    ensures
        spec_complex_tail(cs, pos, head, tail) matches Some(p) ==> pos <= p.1 <= cs.len(),
    decreases cs.len() - pos,
{
    lemma_skip_ws_bounds(cs, pos);
    let p1 = spec_skip_ws(cs, pos);
    if p1 >= cs.len() || cs[p1] == ',' || cs[p1] == '{' {
    } else if cs[p1] == '>' {
        lemma_skip_ws_bounds(cs, p1 + 1);
        let p2 = spec_skip_ws(cs, p1 + 1);
        match spec_compound(cs, p2) {
            Some((c, p3)) => {
                if pos < p3 <= cs.len() {
                    lemma_complex_tail_bounds(cs, p3, head, tail.push((Combinator::Child, c)));
                }
            },
            None => {},
        }
    } else if p1 > pos {
        match spec_compound(cs, p1) {
            Some((c, p3)) => {
                if pos < p3 <= cs.len() {
                    lemma_complex_tail_bounds(cs, p3, head, tail.push((Combinator::Descendant, c)));
                }
            },
            None => {},
        }
    }
}

pub proof fn lemma_complex_bounds(cs: Seq<char>, pos: int)
    requires
        0 <= pos <= cs.len(),
    ensures
        spec_complex(cs, pos) matches Some(p) ==> pos < p.1 <= cs.len(),
{
    lemma_skip_ws_bounds(cs, pos);
    let p1 = spec_skip_ws(cs, pos);
    lemma_compound_bounds(cs, p1);
    match spec_compound(cs, p1) {
        Some((h, p2)) => {
            if p1 < p2 <= cs.len() {
                lemma_complex_tail_bounds(cs, p2, h, Seq::empty());
            }
        },
        None => {},
    }
}

/// The comma-separated selector list at `pos`, ending before `{` or the
/// text's end.
pub open spec fn spec_selector_list(cs: Seq<char>, pos: int) -> Option<(Seq<ComplexView>, int)>
    decreases cs.len() - pos when 0 <= pos <= cs.len()
{
    match spec_complex(cs, pos) {
        Some((c, p2)) => if pos < p2 <= cs.len() {
            if p2 < cs.len() && cs[p2] == ',' {
                match spec_selector_list(cs, p2 + 1) {
                    Some((rest, p3)) => Some((seq![c] + rest, p3)),
                    None => None,
                }
            } else {
                Some((seq![c], p2))
            }
        } else {
            None
        },
        None => None,
    }
}

pub proof fn lemma_selector_list_bounds(cs: Seq<char>, pos: int)
    requires
        0 <= pos <= cs.len(),
    ensures
        spec_selector_list(cs, pos) matches Some(p) ==> pos < p.1 <= cs.len(),
    decreases cs.len() - pos,
{
    lemma_complex_bounds(cs, pos);
    match spec_complex(cs, pos) {
        Some((c, p2)) => {
            if pos < p2 <= cs.len() && p2 < cs.len() && cs[p2] == ',' {
                lemma_selector_list_bounds(cs, p2 + 1);
            }
        },
        None => {},
    }
}

/// Whether `c` is an ASCII digit.
pub open spec fn spec_digit(c: char) -> bool {
    '0' <= c && c <= '9'
}

/// The numeric value of an ASCII digit.
pub open spec fn spec_digit_val(c: char) -> int {
    (c as u32) as int - 48
}

/// The decimal digits at `pos` folded onto `acc`; `None` where the integer
/// part would exceed the scanner's limit.
pub open spec fn spec_int_digits(cs: Seq<char>, pos: int, acc: int) -> Option<(int, int)>
    decreases cs.len() - pos when 0 <= pos <= cs.len()
{
    if pos >= cs.len() || !spec_digit(cs[pos]) {
        Some((acc, pos))
    } else if acc > max_int_part() / 10 - 1 {
        None
    } else {
        spec_int_digits(cs, pos + 1, acc * 10 + spec_digit_val(cs[pos]))
    }
}

pub proof fn lemma_int_digits_bounds(cs: Seq<char>, pos: int, acc: int)
    requires
        0 <= pos <= cs.len(),
        0 <= acc <= max_int_part(),
    ensures
        spec_int_digits(cs, pos, acc) matches Some(p) ==> pos <= p.1 <= cs.len() && 0 <= p.0
            <= max_int_part(),
    decreases cs.len() - pos,
{
    if pos >= cs.len() || !spec_digit(cs[pos]) {
    } else if acc > max_int_part() / 10 - 1 {
    } else {
        lemma_int_digits_bounds(cs, pos + 1, acc * 10 + spec_digit_val(cs[pos]));
    }
}

/// The fractional digits at `pos` folded into thousandths; digits past the
/// third are read and discarded.
pub open spec fn spec_frac_digits(cs: Seq<char>, pos: int, acc: int, nth: int) -> (int, int)
    decreases cs.len() - pos when 0 <= pos <= cs.len()
{
    if pos >= cs.len() || !spec_digit(cs[pos]) {
        (acc, pos)
    } else {
        let d = spec_digit_val(cs[pos]);
        let acc2 = if nth == 0 {
            acc + d * 100
        } else if nth == 1 {
            acc + d * 10
        } else if nth == 2 {
            acc + d
        } else {
            acc
        };
        spec_frac_digits(cs, pos + 1, acc2, if nth < 3 { nth + 1 } else { nth })
    }
}

pub proof fn lemma_frac_digits_bounds(cs: Seq<char>, pos: int, acc: int, nth: int)
    requires
        0 <= pos <= cs.len(),
        0 <= acc,
        nth == 0 ==> acc == 0,
        nth == 1 ==> acc <= 900,
        nth == 2 ==> acc <= 990,
        nth >= 3 ==> acc <= 999,
        0 <= nth,
    ensures
        ({
            let (v, e) = spec_frac_digits(cs, pos, acc, nth);
            pos <= e <= cs.len() && 0 <= v <= 999
        }),
    decreases cs.len() - pos,
{
    if pos >= cs.len() || !spec_digit(cs[pos]) {
    } else {
        let d = spec_digit_val(cs[pos]);
        let acc2 = if nth == 0 {
            acc + d * 100
        } else if nth == 1 {
            acc + d * 10
        } else if nth == 2 {
            acc + d
        } else {
            acc
        };
        lemma_frac_digits_bounds(cs, pos + 1, acc2, if nth < 3 { nth + 1 } else { nth });
    }
}

/// The signed decimal number at `pos`, in thousandths, with the position
/// just past it.
pub open spec fn spec_number_thousandths(cs: Seq<char>, pos: int) -> Option<(int, int)> {
    if 0 <= pos <= cs.len() {
        let neg = pos < cs.len() && cs[pos] == '-';
        let p1 = if pos < cs.len() && (cs[pos] == '-' || cs[pos] == '+') {
            pos + 1
        } else {
            pos
        };
        if p1 >= cs.len() || !spec_digit(cs[p1]) {
            None
        } else {
            match spec_int_digits(cs, p1, 0) {
                None => None,
                Some((ip, p2)) => if p1 <= p2 <= cs.len() {
                    if p2 < cs.len() && cs[p2] == '.' {
                        if p2 + 1 >= cs.len() || !spec_digit(cs[p2 + 1]) {
                            None
                        } else {
                            let (fr, p3) = spec_frac_digits(cs, p2 + 1, 0, 0);
                            let m = ip * 1000 + fr;
                            Some((if neg { -m } else { m }, p3))
                        }
                    } else {
                        let m = ip * 1000;
                        Some((if neg { -m } else { m }, p2))
                    }
                } else {
                    None
                },
            }
        }
    } else {
        None
    }
}

pub proof fn lemma_number_bounds(cs: Seq<char>, pos: int)
    requires
        0 <= pos <= cs.len(),
    ensures
        spec_number_thousandths(cs, pos) matches Some(p) ==> pos < p.1 <= cs.len()
            && -(max_int_part() * 1000 + 999) <= p.0 <= max_int_part() * 1000 + 999,
{
    let p1 = if pos < cs.len() && (cs[pos] == '-' || cs[pos] == '+') {
        pos + 1
    } else {
        pos
    };
    if p1 < cs.len() && spec_digit(cs[p1]) {
        let d = spec_digit_val(cs[p1]);
        assert(0 <= d <= 9);
        lemma_int_digits_bounds(cs, p1 + 1, d);
        assert(spec_int_digits(cs, p1, 0) == spec_int_digits(cs, p1 + 1, d));
        match spec_int_digits(cs, p1, 0) {
            Some((ip, p2)) => {
                if p2 < cs.len() && cs[p2] == '.' && p2 + 1 < cs.len() && spec_digit(cs[p2 + 1]) {
                    lemma_frac_digits_bounds(cs, p2 + 1, 0, 0);
                }
            },
            None => {},
        }
    }
}

/// The raw component value captured from `pos` up to the terminating `;` or
/// (at parenthesis depth zero) `}`, with trailing whitespace dropped.
pub open spec fn spec_capture(cs: Seq<char>, pos: int, out: Seq<char>, kept: int, depth: int) -> (Seq<char>, int)
    decreases cs.len() - pos when 0 <= pos <= cs.len() && 0 <= kept <= out.len() && 0 <= depth
{
    if pos >= cs.len() {
        (out.take(kept), pos)
    } else if depth == 0 && (cs[pos] == ';' || cs[pos] == '}') {
        (out.take(kept), pos)
    } else {
        let c = cs[pos];
        let d2 = if c == '(' {
            if depth < usize::MAX as int { depth + 1 } else { depth }
        } else if c == ')' {
            if depth > 0 { depth - 1 } else { depth }
        } else {
            depth
        };
        let out2 = out.push(c);
        let kept2 = if !is_ws(c) { out2.len() as int } else { kept };
        spec_capture(cs, pos + 1, out2, kept2, d2)
    }
}

pub proof fn lemma_capture_bounds(cs: Seq<char>, pos: int, out: Seq<char>, kept: int, depth: int)
    requires
        0 <= pos <= cs.len(),
        0 <= kept <= out.len(),
        0 <= depth,
    ensures
        pos <= spec_capture(cs, pos, out, kept, depth).1 <= cs.len(),
    decreases cs.len() - pos,
{
    if pos >= cs.len() {
    } else if depth == 0 && (cs[pos] == ';' || cs[pos] == '}') {
    } else {
        let c = cs[pos];
        let d2 = if c == '(' {
            if depth < usize::MAX as int { depth + 1 } else { depth }
        } else if c == ')' {
            if depth > 0 { depth - 1 } else { depth }
        } else {
            depth
        };
        let out2 = out.push(c);
        let kept2 = if !is_ws(c) { out2.len() as int } else { kept };
        lemma_capture_bounds(cs, pos + 1, out2, kept2, d2);
    }
}

/// The sizing value at `pos`: `none`, `auto`, a percentage or a pixel
/// length.
pub open spec fn spec_sizing_value(cs: Seq<char>, pos: int) -> Option<(Value, int)> {
    if 0 <= pos <= cs.len() {
        let p1 = spec_skip_ws(cs, pos);
        if pos <= p1 <= cs.len() {
            match spec_ident(cs, p1) {
                Some((kw, p2)) => if spec_keyword_matches(kw, "none"@) {
                    Some((Value::Undefined, p2))
                } else if spec_keyword_matches(kw, "auto"@) {
                    Some((Value::Auto, p2))
                } else {
                    None
                },
                None => match spec_number_thousandths(cs, p1) {
                    None => None,
                    Some((n, p2)) => if p1 < p2 <= cs.len() {
                        if p2 < cs.len() && cs[p2] == '%' {
                            Some((Value::Percent(n as i64), p2 + 1))
                        } else {
                            match spec_ident(cs, p2) {
                                Some((unit, p3)) => if spec_keyword_matches(unit, "px"@) {
                                    Some((Value::Px(n as i64), p3))
                                } else {
                                    None
                                },
                                None => None,
                            }
                        }
                    } else {
                        None
                    },
                },
            }
        } else {
            None
        }
    } else {
        None
    }
}

pub proof fn lemma_sizing_bounds(cs: Seq<char>, pos: int)
    requires
        0 <= pos <= cs.len(),
    ensures
        spec_sizing_value(cs, pos) matches Some(p) ==> pos <= p.1 <= cs.len(),
{
    lemma_skip_ws_bounds(cs, pos);
    let p1 = spec_skip_ws(cs, pos);
    lemma_number_bounds(cs, p1);
}

/// The parsed declaration of the property called `name` with its value text
/// at `pos`.
pub open spec fn spec_declaration(name: Seq<char>, cs: Seq<char>, pos: int) -> Option<(Declaration, int)> {
    if name == "width"@ {
        match spec_sizing_value(cs, pos) {
            Some((v, e)) => Some((Declaration::Width(v), e)),
            None => None,
        }
    } else if name == "height"@ {
        match spec_sizing_value(cs, pos) {
            Some((v, e)) => Some((Declaration::Height(v), e)),
            None => None,
        }
    } else if name == "margin-top"@ {
        match spec_sizing_value(cs, pos) {
            Some((v, e)) => Some((Declaration::MarginTop(v), e)),
            None => None,
        }
    } else if name == "margin-bottom"@ {
        match spec_sizing_value(cs, pos) {
            Some((v, e)) => Some((Declaration::MarginBottom(v), e)),
            None => None,
        }
    } else if name == "margin-left"@ {
        match spec_sizing_value(cs, pos) {
            Some((v, e)) => Some((Declaration::MarginLeft(v), e)),
            None => None,
        }
    } else if name == "margin-right"@ {
        match spec_sizing_value(cs, pos) {
            Some((v, e)) => Some((Declaration::MarginRight(v), e)),
            None => None,
        }
    } else if name == "background-color"@ {
        if 0 <= pos <= cs.len() {
            let p1 = spec_skip_ws(cs, pos);
            if pos <= p1 <= cs.len() {
                let (raw, p2) = spec_capture(cs, p1, Seq::empty(), 0, 0);
                match css_color_of(raw) {
                    Some(c) => Some((Declaration::BackgroundColor(c.0, c.1, c.2, c.3), p2)),
                    None => None,
                }
            } else {
                None
            }
        } else {
            None
        }
    } else {
        None
    }
}

pub proof fn lemma_declaration_bounds(name: Seq<char>, cs: Seq<char>, pos: int)
    requires
        0 <= pos <= cs.len(),
    ensures
        spec_declaration(name, cs, pos) matches Some(p) ==> pos <= p.1 <= cs.len(),
{
    lemma_sizing_bounds(cs, pos);
    lemma_skip_ws_bounds(cs, pos);
    let p1 = spec_skip_ws(cs, pos);
    if pos <= p1 <= cs.len() {
        lemma_capture_bounds(cs, p1, Seq::empty(), 0, 0);
    }
}

/// The declarations of a block from `pos` on (the opening brace already
/// behind), folded onto `acc`; the closing brace is consumed, and the
/// text's end also ends the block.
pub open spec fn spec_decl_block(cs: Seq<char>, pos: int, acc: Seq<Declaration>) -> Option<(Seq<Declaration>, int)>
    decreases cs.len() - pos when 0 <= pos <= cs.len()
{
    let p1 = spec_skip_ws(cs, pos);
    if !(pos <= p1 <= cs.len()) {
        None
    } else if p1 >= cs.len() {
        Some((acc, p1))
    } else if cs[p1] == '}' {
        Some((acc, p1 + 1))
    } else if cs[p1] == ';' {
        spec_decl_block(cs, p1 + 1, acc)
    } else {
        match spec_ident(cs, p1) {
            None => None,
            Some((name, p2)) => {
                let p3 = spec_skip_ws(cs, p2);
                if !(p2 <= p3 <= cs.len()) {
                    None
                } else if p3 >= cs.len() || cs[p3] != ':' {
                    None
                } else {
                    match spec_declaration(name, cs, p3 + 1) {
                        None => None,
                        Some((d, p4)) => if p3 + 1 <= p4 <= cs.len() {
                            let p5 = spec_skip_ws(cs, p4);
                            if !(p4 <= p5 <= cs.len()) {
                                None
                            } else if p5 < cs.len() && cs[p5] == ';' {
                                spec_decl_block(cs, p5 + 1, acc.push(d))
                            } else if p5 < cs.len() && cs[p5] != '}' {
                                None
                            } else {
                                spec_decl_block(cs, p5, acc.push(d))
                            }
                        } else {
                            None
                        },
                    }
                }
            },
        }
    }
}

pub proof fn lemma_decl_block_bounds(cs: Seq<char>, pos: int, acc: Seq<Declaration>)
    requires
        0 <= pos <= cs.len(),
    ensures
        spec_decl_block(cs, pos, acc) matches Some(p) ==> pos <= p.1 <= cs.len(),
    decreases cs.len() - pos,
{
    lemma_skip_ws_bounds(cs, pos);
    let p1 = spec_skip_ws(cs, pos);
    if p1 >= cs.len() || cs[p1] == '}' {
    } else if cs[p1] == ';' {
        lemma_decl_block_bounds(cs, p1 + 1, acc);
    } else {
        match spec_ident(cs, p1) {
            None => {},
            Some((name, p2)) => {
                lemma_skip_ws_bounds(cs, p2);
                let p3 = spec_skip_ws(cs, p2);
                if p3 < cs.len() && cs[p3] == ':' {
                    match spec_declaration(name, cs, p3 + 1) {
                        None => {},
                        Some((d, p4)) => {
                            if p3 + 1 <= p4 <= cs.len() {
                                lemma_skip_ws_bounds(cs, p4);
                                let p5 = spec_skip_ws(cs, p4);
                                if p5 < cs.len() && cs[p5] == ';' {
                                    lemma_decl_block_bounds(cs, p5 + 1, acc.push(d));
                                } else if p5 < cs.len() && cs[p5] != '}' {
                                } else {
                                    lemma_decl_block_bounds(cs, p5, acc.push(d));
                                }
                            }
                        },
                    }
                }
            },
        }
    }
}

/// One qualified rule at `pos`: a selector-list prelude followed by a braced
/// declaration block.
pub open spec fn spec_rule(cs: Seq<char>, pos: int) -> Option<(RuleView, int)> {
    if 0 <= pos <= cs.len() {
        match spec_selector_list(cs, pos) {
            None => None,
            Some((sl, p2)) => if pos < p2 <= cs.len() {
                if p2 < cs.len() && cs[p2] == '{' {
                    match spec_decl_block(cs, p2 + 1, Seq::empty()) {
                        Some((ds, p3)) => if p2 + 1 <= p3 <= cs.len() {
                            Some((RuleView { selectors: sl, properties: ds }, p3))
                        } else {
                            None
                        },
                        None => None,
                    }
                } else {
                    None
                }
            } else {
                None
            },
        }
    } else {
        None
    }
}

/// The stylesheet grammar: the qualified rules of the text from `pos` on,
/// folded onto `acc`, and whether the whole text parses. Where it does not,
/// the first component holds the rules parsed before the error.
pub open spec fn spec_stylesheet(cs: Seq<char>, pos: int, acc: Seq<RuleView>) -> (Seq<RuleView>, bool)
    decreases cs.len() - pos when 0 <= pos <= cs.len()
{
    let p1 = spec_skip_ws(cs, pos);
    if !(pos <= p1 <= cs.len()) {
        (acc, false)
    } else if p1 >= cs.len() {
        (acc, true)
    } else if cs[p1] == '@' {
        (acc, false)
    } else {
        match spec_rule(cs, p1) {
            None => (acc, false),
            Some((rv, p3)) => if p1 < p3 <= cs.len() {
                spec_stylesheet(cs, p3, acc.push(rv))
            } else {
                (acc, false)
            },
        }
    }
}

/// What [`StyleSheet::parse`] makes of a whole text: the parsed rules in
/// source order, and whether the text parses without error.
pub open spec fn spec_stylesheet_rules(s: Seq<char>) -> (Seq<RuleView>, bool) {
    spec_stylesheet(s, 0, Seq::empty())
}

/// What [`crate::selector::SelectorParser::parse`] makes of standalone
/// selector text: the parsed list, or nothing where the text does not parse
/// or is not wholly consumed.
pub open spec fn spec_selector_text(s: Seq<char>) -> Option<Seq<ComplexView>> {
    match spec_selector_list(s, 0) {
        Some((l, p)) => if 0 <= p <= s.len() {
            if spec_skip_ws(s, p) >= s.len() {
                Some(l)
            } else {
                None
            }
        } else {
            None
        },
        None => None,
    }
}

/// Advances the cursor over one character, keeping line/column bookkeeping.
fn bump(cs: &Vec<char>, cur: &mut Cursor)
    requires
        cursor_ok(cs@, *old(cur)),
        old(cur).pos < cs@.len(),
    ensures
        cursor_ok(cs@, *final(cur)),
        final(cur).pos == old(cur).pos + 1,
{
    proof {
        assert(cs@.len() == vstd::std_specs::vec::spec_vec_len(cs));
    }
    if cs[cur.pos] == '\n' {
        cur.line = cur.line + 1;
        cur.col = 0;
    } else {
        cur.col = cur.col + 1;
    }
    cur.pos = cur.pos + 1;
}

/// Builds an error at the cursor's position.
fn error_at(cur: &Cursor, kind: CssErrorKind) -> (r: CssError)
    ensures
        r.line == cur.line,
        r.column == cur.col,
{
    CssError { line: cur.line, column: cur.col, kind }
}

/// Skips whitespace and `/* ... */` comments, landing exactly where
/// [`spec_skip_ws`] says.
fn skip_ws_and_comments(cs: &Vec<char>, cur: &mut Cursor)
    requires
        cursor_ok(cs@, *old(cur)),
    ensures
        cursor_ok(cs@, *final(cur)),
        final(cur).pos >= old(cur).pos,
        final(cur).pos as int == spec_skip_ws(cs@, old(cur).pos as int),
{
    loop
        invariant
            cursor_ok(cs@, *cur),
            cur.pos >= old(cur).pos,
            spec_skip_ws(cs@, cur.pos as int) == spec_skip_ws(cs@, old(cur).pos as int),
        decreases cs@.len() - cur.pos,
    {
        if cur.pos >= cs.len() {
            return ;
        }
        let c = cs[cur.pos];
        if is_ws_char(c) {
            bump(cs, cur);
        } else if c == '/' && cur.pos + 1 < cs.len() && cs[cur.pos + 1] == '*' {
            proof {
                lemma_skip_comment_bounds(cs@, cur.pos + 2);
            }
            bump(cs, cur);
            bump(cs, cur);
            let ghost p0 = cur.pos;
            loop
                invariant_except_break
                    spec_skip_comment(cs@, cur.pos as int) == spec_skip_comment(cs@, p0 as int),
                invariant
                    cursor_ok(cs@, *cur),
                    cur.pos >= p0,
                    p0 >= old(cur).pos + 2,
                    ({
                        let pc = spec_skip_comment(cs@, p0 as int);
                        p0 <= pc <= cs@.len() && spec_skip_ws(cs@, old(cur).pos as int)
                            == spec_skip_ws(cs@, pc)
                    }),
                ensures
                    cursor_ok(cs@, *cur),
                    cur.pos >= old(cur).pos,
                    cur.pos as int == spec_skip_comment(cs@, p0 as int),
                decreases cs@.len() - cur.pos,
            {
                if cur.pos >= cs.len() {
                    proof {
                        assert(spec_skip_comment(cs@, cur.pos as int) == cur.pos as int);
                        assert(spec_skip_ws(cs@, cs@.len() as int) == cs@.len() as int);
                    }
                    return ;
                }
                if cs[cur.pos] == '*' && cur.pos + 1 < cs.len() && cs[cur.pos + 1] == '/' {
                    proof {
                        assert(spec_skip_comment(cs@, cur.pos as int) == cur.pos + 2);
                    }
                    bump(cs, cur);
                    bump(cs, cur);
                    break ;
                }
                bump(cs, cur);
            }
        } else {
            return ;
        }
    }
}

/// Whether `c` may start an identifier.
pub open spec fn is_ident_start(c: char) -> bool {
    ('a' <= c && c <= 'z') || ('A' <= c && c <= 'Z') || c == '_' || c > '\u{80}'
}

/// Whether `c` may continue an identifier.
pub open spec fn is_ident_char(c: char) -> bool {
    is_ident_start(c) || ('0' <= c && c <= '9') || c == '-'
}

fn is_ident_start_char(c: char) -> (r: bool)
    ensures
        r == is_ident_start(c),
{
    ('a' <= c && c <= 'z') || ('A' <= c && c <= 'Z') || c == '_' || c > '\u{80}'
}

fn is_ident_char_exec(c: char) -> (r: bool)
    ensures
        r == is_ident_char(c),
{
    is_ident_start_char(c) || ('0' <= c && c <= '9') || c == '-'
}

/// Parses an identifier at the cursor, or returns `None` without moving.
fn parse_ident(cs: &Vec<char>, cur: &mut Cursor) -> (r: Option<String>)
    requires
        cursor_ok(cs@, *old(cur)),
    ensures
        cursor_ok(cs@, *final(cur)),
        final(cur).pos >= old(cur).pos,
        r is Some ==> final(cur).pos > old(cur).pos,
        r is None ==> *final(cur) == *old(cur),
        match spec_ident(cs@, old(cur).pos as int) {
            Some(p) => r matches Some(nm) && nm@ == p.0 && final(cur).pos as int == p.1,
            None => r is None,
        },
{
    if cur.pos >= cs.len() {
        return None;
    }
    let c0 = cs[cur.pos];
    let leading_dash = c0 == '-' && cur.pos + 1 < cs.len() && is_ident_start_char(cs[cur.pos + 1]);
    if !is_ident_start_char(c0) && !leading_dash {
        return None;
    }
    let ghost p0 = cur.pos as int;
    proof {
        lemma_ident_end_bounds(cs@, p0 + 1);
    }
    let mut out: Vec<char> = Vec::new();
    out.push(c0);
    bump(cs, cur);
    proof {
        assert(out@ =~= cs@.subrange(p0, p0 + 1));
    }
    loop
        invariant
            cursor_ok(cs@, *cur),
            0 <= p0,
            cur.pos > p0,
            out@ == cs@.subrange(p0, cur.pos as int),
            spec_ident_end(cs@, cur.pos as int) == spec_ident_end(cs@, p0 + 1),
        ensures
            spec_ident_end(cs@, cur.pos as int) == cur.pos as int,
        decreases cs@.len() - cur.pos,
    {
        if cur.pos >= cs.len() {
            break ;
        }
        let c = cs[cur.pos];
        if is_ident_char_exec(c) {
            let ghost prevout = out@;
            let ghost prevpos = cur.pos as int;
            out.push(c);
            bump(cs, cur);
            proof {
                assert(cur.pos as int == prevpos + 1);
                assert(out@ == prevout.push(c));
                assert(c == cs@[prevpos]);
                assert(out@.len() == cur.pos as int - p0);
                assert forall|i: int| 0 <= i < out@.len() implies out@[i] == cs@.subrange(
                    p0,
                    cur.pos as int,
                )[i] by {
                    if i < prevout.len() {
                        assert(prevout[i] == cs@.subrange(p0, prevpos)[i]);
                    }
                }
                assert(out@ =~= cs@.subrange(p0, cur.pos as int));
            }
        } else {
            break ;
        }
    }
    proof {
        assert(cur.pos as int <= cs@.len());
        assert(spec_ident_end(cs@, cur.pos as int) == cur.pos as int);
    }
    Some(string_from_chars(out.as_slice()))
}

/// Parses one compound selector; at least one simple selector must be
/// present.
fn parse_compound(cs: &Vec<char>, cur: &mut Cursor) -> (r: Result<CompoundSelector, CssError>)
    requires
        cursor_ok(cs@, *old(cur)),
    ensures
        cursor_ok(cs@, *final(cur)),
        final(cur).pos >= old(cur).pos,
        r is Ok ==> final(cur).pos > old(cur).pos,
        match spec_compound(cs@, old(cur).pos as int) {
            Some(p) => r matches Ok(c) && compound_view(c) == p.0 && final(cur).pos as int == p.1,
            None => r is Err,
        },
{
    let ghost p0 = cur.pos as int;
    let mut local_name: Option<String> = None;
    let mut id: Option<String> = None;
    let mut classes: Vec<String> = Vec::new();
    let mut any = false;
    if cur.pos < cs.len() && cs[cur.pos] == '*' {
        bump(cs, cur);
        any = true;
    } else {
        match parse_ident(cs, cur) {
            Some(nm) => {
                local_name = Some(nm);
                any = true;
            },
            None => {},
        }
    }
    proof {
        assert(classes.deep_view() =~= Seq::<Seq<char>>::empty());
    }
    loop
        invariant
            cursor_ok(cs@, *cur),
            0 <= p0 <= cur.pos,
            p0 == old(cur).pos as int,
            any ==> cur.pos > p0,
            spec_compound_parts(
                cs@,
                cur.pos as int,
                CompoundView {
                    local_name: opt_str_view(local_name),
                    id: opt_str_view(id),
                    classes: classes.deep_view(),
                },
                any,
            ) == spec_compound(cs@, p0),
        ensures
            spec_compound(cs@, p0) == (if any {
                Some((
                    CompoundView {
                        local_name: opt_str_view(local_name),
                        id: opt_str_view(id),
                        classes: classes.deep_view(),
                    },
                    cur.pos as int,
                ))
            } else {
                None
            }),
        decreases cs@.len() - cur.pos,
    {
        if cur.pos >= cs.len() {
            break ;
        }
        let c = cs[cur.pos];
        if c == '.' {
            bump(cs, cur);
            match parse_ident(cs, cur) {
                Some(nm) => {
                    let ghost prevdv = classes.deep_view();
                    classes.push(nm);
                    proof {
                        let dv = classes.deep_view();
                        assert forall|i: int| 0 <= i < dv.len() implies dv[i] == prevdv.push(
                            nm@,
                        )[i] by {}
                        assert(dv =~= prevdv.push(nm@));
                    }
                    any = true;
                },
                None => {
                    return Err(unexpected_here(cs, cur));
                },
            }
        } else if c == '#' {
            bump(cs, cur);
            match parse_ident(cs, cur) {
                Some(nm) => {
                    id = Some(nm);
                    any = true;
                },
                None => {
                    return Err(unexpected_here(cs, cur));
                },
            }
        } else {
            break ;
        }
    }
    if !any {
        return Err(unexpected_here(cs, cur));
    }
    Ok(CompoundSelector { local_name, id, classes })
}

/// An `UnexpectedToken` error carrying the character at the cursor (or an
/// end-of-input error at the very end).
fn unexpected_here(cs: &Vec<char>, cur: &Cursor) -> (r: CssError)
    requires
        cursor_ok(cs@, *cur),
{
    if cur.pos < cs.len() {
        let mut t: Vec<char> = Vec::new();
        t.push(cs[cur.pos]);
        error_at(cur, CssErrorKind::UnexpectedToken(string_from_chars(t.as_slice())))
    } else {
        error_at(cur, CssErrorKind::EndOfInput)
    }
}

/// Parses one complex selector, ending before `,`, `{` or end of input.
fn parse_complex(cs: &Vec<char>, cur: &mut Cursor) -> (r: Result<ComplexSelector, CssError>)
    requires
        cursor_ok(cs@, *old(cur)),
    ensures
        cursor_ok(cs@, *final(cur)),
        final(cur).pos >= old(cur).pos,
        r is Ok ==> final(cur).pos > old(cur).pos,
        match spec_complex(cs@, old(cur).pos as int) {
            Some(p) => r matches Ok(x) && complex_view(x) == p.0 && final(cur).pos as int == p.1,
            None => r is Err,
        },
{
    let ghost p0 = cur.pos as int;
    skip_ws_and_comments(cs, cur);
    let head = match parse_compound(cs, cur) {
        Ok(h) => h,
        Err(e) => {
            return Err(e);
        },
    };
    let mut tail: Vec<(Combinator, CompoundSelector)> = Vec::new();
    proof {
        assert(tail_view(tail@) =~= Seq::<(Combinator, CompoundView)>::empty());
    }
    loop
        invariant
            cursor_ok(cs@, *cur),
            0 <= p0 < cur.pos,
            p0 == old(cur).pos as int,
            spec_complex_tail(cs@, cur.pos as int, compound_view(head), tail_view(tail@))
                == spec_complex(cs@, p0),
        ensures
            spec_complex(cs@, p0) == Some(
                (
                    ComplexView { head: compound_view(head), tail: tail_view(tail@) },
                    cur.pos as int,
                ),
            ),
        decreases cs@.len() - cur.pos,
    {
        let ghost itop = cur.pos as int;
        let before_ws = cur.pos;
        skip_ws_and_comments(cs, cur);
        if cur.pos >= cs.len() {
            break ;
        }
        let c = cs[cur.pos];
        if c == ',' || c == '{' {
            break ;
        }
        if c == '>' {
            bump(cs, cur);
            skip_ws_and_comments(cs, cur);
            let ghost prevt = tail@;
            match parse_compound(cs, cur) {
                Ok(p) => {
                    tail.push((Combinator::Child, p));
                    proof {
                        lemma_tail_view_push(prevt, (Combinator::Child, p));
                    }
                },
                Err(e) => {
                    return Err(e);
                },
            }
        } else if before_ws < cur.pos {
            // Whitespace alone separates two compounds: descendant.
            let ghost prevt = tail@;
            match parse_compound(cs, cur) {
                Ok(p) => {
                    tail.push((Combinator::Descendant, p));
                    proof {
                        lemma_tail_view_push(prevt, (Combinator::Descendant, p));
                    }
                },
                Err(e) => {
                    return Err(e);
                },
            }
        } else {
            return Err(unexpected_here(cs, cur));
        }
    }
    Ok(ComplexSelector { head, tail })
}

/// Parses a comma-separated selector list, ending before `{` or end of
/// input.
pub fn parse_selector_list(cs: &Vec<char>, cur: &mut Cursor) -> (r: Result<SelectorList, CssError>)
    requires
        cursor_ok(cs@, *old(cur)),
    ensures
        cursor_ok(cs@, *final(cur)),
        final(cur).pos >= old(cur).pos,
        match spec_selector_list(cs@, old(cur).pos as int) {
            Some(p) => r matches Ok(sl) && sel_list_view(sl.selectors@) == p.0 && final(cur).pos
                as int == p.1,
            None => r is Err,
        },
{
    let ghost p0 = cur.pos as int;
    let mut selectors: Vec<ComplexSelector> = Vec::new();
    proof {
        assert(sel_list_view(selectors@) =~= Seq::<ComplexView>::empty());
        assert(sel_list_view(selectors@) + Seq::<ComplexView>::empty() =~= sel_list_view(
            selectors@,
        ));
    }
    loop
        invariant_except_break
            match spec_selector_list(cs@, cur.pos as int) {
                Some(p) => spec_selector_list(cs@, p0) == Some(
                    (sel_list_view(selectors@) + p.0, p.1),
                ),
                None => spec_selector_list(cs@, p0) is None,
            },
        invariant
            cursor_ok(cs@, *cur),
            0 <= p0 <= cur.pos,
            p0 == old(cur).pos as int,
        ensures
            cursor_ok(cs@, *cur),
            p0 <= cur.pos,
            spec_selector_list(cs@, p0) == Some((sel_list_view(selectors@), cur.pos as int)),
        decreases cs@.len() - cur.pos,
    {
        let ghost itop = cur.pos as int;
        let sel = match parse_complex(cs, cur) {
            Ok(s) => s,
            Err(e) => {
                return Err(e);
            },
        };
        let ghost cv = complex_view(sel);
        let ghost prevseq = selectors@;
        let ghost prevlv = sel_list_view(selectors@);
        selectors.push(sel);
        proof {
            lemma_sel_list_view_push(prevseq, sel);
        }
        if cur.pos < cs.len() && cs[cur.pos] == ',' {
            bump(cs, cur);
            proof {
                match spec_selector_list(cs@, cur.pos as int) {
                    Some(p) => {
                        assert(prevlv + (seq![cv] + p.0) =~= sel_list_view(selectors@) + p.0);
                    },
                    None => {},
                }
            }
        } else {
            proof {
                assert(prevlv + seq![cv] =~= sel_list_view(selectors@));
            }
            break ;
        }
    }
    Ok(SelectorList { selectors })
}

/// Largest integer-part magnitude accepted by the number scanner.
pub open spec fn max_int_part() -> int {
    0x38d7ea4c68000
}

/// Parses a signed decimal number into thousandths; fractional digits past
/// the third are read and discarded.
fn parse_number_thousandths(cs: &Vec<char>, cur: &mut Cursor) -> (r: Result<i64, CssError>)
    requires
        cursor_ok(cs@, *old(cur)),
    ensures
        cursor_ok(cs@, *final(cur)),
        final(cur).pos >= old(cur).pos,
        match spec_number_thousandths(cs@, old(cur).pos as int) {
            Some(p) => r matches Ok(n) && n as int == p.0 && final(cur).pos as int == p.1,
            None => r is Err,
        },
{
    let ghost p0 = cur.pos as int;
    let mut negative = false;
    if cur.pos < cs.len() && (cs[cur.pos] == '-' || cs[cur.pos] == '+') {
        negative = cs[cur.pos] == '-';
        bump(cs, cur);
    }
    if cur.pos >= cs.len() || !is_digit_char(cs[cur.pos]) {
        return Err(unexpected_here(cs, cur));
    }
    let ghost p1 = cur.pos as int;
    let mut int_part: i64 = 0;
    loop
        invariant
            cursor_ok(cs@, *cur),
            0 <= p1 <= cur.pos,
            p0 == old(cur).pos as int,
            p1 == (if p0 < cs@.len() && (cs@[p0] == '-' || cs@[p0] == '+') {
                p0 + 1
            } else {
                p0
            }),
            p1 < cs@.len() && spec_digit(cs@[p1]),
            0 <= int_part <= max_int_part(),
            spec_int_digits(cs@, cur.pos as int, int_part as int) == spec_int_digits(cs@, p1, 0),
        ensures
            cursor_ok(cs@, *cur),
            p1 <= cur.pos,
            0 <= int_part <= max_int_part(),
            spec_int_digits(cs@, p1, 0) == Some((int_part as int, cur.pos as int)),
        decreases cs@.len() - cur.pos,
    {
        if cur.pos >= cs.len() || !is_digit_char(cs[cur.pos]) {
            break ;
        }
        if int_part > 0x38d7ea4c68000i64 / 10 - 1 {
            return Err(unexpected_here(cs, cur));
        }
        let d = digit_value(cs[cur.pos]);
        int_part = int_part * 10 + d;
        bump(cs, cur);
    }
    let mut frac: i64 = 0;
    let ghost pdot = cur.pos as int;
    let mut has_frac = false;
    if cur.pos < cs.len() && cs[cur.pos] == '.' {
        if cur.pos + 1 >= cs.len() || !is_digit_char(cs[cur.pos + 1]) {
            return Err(unexpected_here(cs, cur));
        }
        has_frac = true;
        bump(cs, cur);
        let ghost pfr = cur.pos as int;
        let mut nth: usize = 0;
        loop
            invariant
                cursor_ok(cs@, *cur),
                0 <= pfr <= cur.pos,
                nth == 0 ==> frac == 0,
                nth == 1 ==> 0 <= frac <= 900,
                nth == 2 ==> 0 <= frac <= 990,
                nth >= 3 ==> 0 <= frac <= 999,
                0 <= frac,
                spec_frac_digits(cs@, cur.pos as int, frac as int, nth as int)
                    == spec_frac_digits(cs@, pfr, 0, 0),
            ensures
                cursor_ok(cs@, *cur),
                pfr <= cur.pos,
                0 <= frac <= 999,
                spec_frac_digits(cs@, pfr, 0, 0) == (frac as int, cur.pos as int),
            decreases cs@.len() - cur.pos,
        {
            if cur.pos >= cs.len() || !is_digit_char(cs[cur.pos]) {
                break ;
            }
            let d = digit_value(cs[cur.pos]);
            if nth == 0 {
                frac = frac + d * 100;
            } else if nth == 1 {
                frac = frac + d * 10;
            } else if nth == 2 {
                frac = frac + d;
            }
            if nth < 3 {
                nth = nth + 1;
            }
            bump(cs, cur);
        }
    }
    proof {
        if !has_frac {
            assert(!(pdot < cs@.len() && cs@[pdot] == '.' && pdot + 1 < cs@.len() && spec_digit(
                cs@[pdot + 1],
            )));
        }
    }
    let magnitude: i64 = int_part * 1000 + frac;
    if negative {
        Ok(-magnitude)
    } else {
        Ok(magnitude)
    }
}

/// Equality of two characters up to ASCII letter case.
pub open spec fn spec_eq_ignore_ascii(a: char, b: char) -> bool {
    a == b || (65 <= a as u32 <= 90 && b as u32 == a as u32 + 32) || (65 <= b as u32 <= 90
        && a as u32 == b as u32 + 32)
}

/// Case-insensitive equality of two characters, ASCII letters only.
fn eq_ignore_ascii(a: char, b: char) -> (r: bool)
    ensures
        r == spec_eq_ignore_ascii(a, b),
{
    let au = a as u32;
    let bu = b as u32;
    proof {
        vstd::utf8::char_u32_cast(a, au);
        vstd::utf8::char_u32_cast(b, bu);
    }
    au == bu || (65 <= au && au <= 90 && bu == au + 32) || (65 <= bu && bu <= 90 && au == bu + 32)
}

/// Whether `s` matches `kw` character for character, up to ASCII letter
/// case.
pub open spec fn spec_keyword_matches(s: Seq<char>, kw: Seq<char>) -> bool {
    s.len() == kw.len() && forall|k: int| 0 <= k < s.len() ==> spec_eq_ignore_ascii(s[k], kw[k])
}

/// Exec mirror of [`spec_keyword_matches`].
pub fn keyword_matches(s: &str, kw: &str) -> (r: bool)
    ensures
        r == spec_keyword_matches(s@, kw@),
{
    let n = s.unicode_len();
    if n != kw.unicode_len() {
        return false;
    }
    let mut i: usize = 0;
    while i < n
        invariant
            n == s@.len(),
            n == kw@.len(),
            i <= n,
            forall|k: int| 0 <= k < i ==> spec_eq_ignore_ascii(s@[k], kw@[k]),
        decreases n - i,
    {
        if !eq_ignore_ascii(s.get_char(i), kw.get_char(i)) {
            return false;
        }
        i = i + 1;
    }
    true
}

/// What `cssparser::Color::parse` yields on text holding exactly one color:
/// the channels of the parsed color, or `None` for `currentcolor`, for
/// trailing input, and for text that is no color. The result depends on the
/// text alone.
pub uninterp spec fn css_color_of(s: Seq<char>) -> Option<(u8, u8, u8, u8)>;

/// Relies on cssparser's `Color::parse`: understands every CSS color syntax.
/// `currentcolor` (not a concrete color here), trailing input and malformed
/// text are collapsed to `None`.
#[verifier::external_body]
fn parse_css_color(s: &str) -> (r: Option<(u8, u8, u8, u8)>)
    ensures
        r == css_color_of(s@),
{
    let mut input = cssparser::ParserInput::new(s);
    let mut parser = cssparser::Parser::new(&mut input);
    match cssparser::Color::parse(&mut parser) {
        Ok(cssparser::Color::RGBA(c)) => {
            if parser.is_exhausted() {
                Some((c.red, c.green, c.blue, c.alpha))
            } else {
                None
            }
        },
        _ => None,
    }
}

/// Captures the raw value text from the cursor up to the terminating `;` or
/// (at parenthesis depth zero) `}`, leaving the cursor on the terminator;
/// trailing whitespace is not captured.
fn capture_component_value(cs: &Vec<char>, cur: &mut Cursor) -> (r: String)
    requires
        cursor_ok(cs@, *old(cur)),
    ensures
        cursor_ok(cs@, *final(cur)),
        final(cur).pos >= old(cur).pos,
        ({
            let p = spec_capture(cs@, old(cur).pos as int, Seq::empty(), 0, 0);
            r@ == p.0 && final(cur).pos as int == p.1
        }),
{
    let ghost p0 = cur.pos as int;
    let mut out: Vec<char> = Vec::new();
    let mut kept: usize = 0;
    let mut depth: usize = 0;
    loop
        invariant
            cursor_ok(cs@, *cur),
            0 <= p0 <= cur.pos,
            kept <= out@.len(),
            spec_capture(cs@, cur.pos as int, out@, kept as int, depth as int) == spec_capture(
                cs@,
                p0,
                Seq::empty(),
                0,
                0,
            ),
        ensures
            cursor_ok(cs@, *cur),
            p0 <= cur.pos,
            kept <= out@.len(),
            spec_capture(cs@, p0, Seq::empty(), 0, 0) == (out@.take(kept as int), cur.pos as int),
        decreases cs@.len() - cur.pos,
    {
        if cur.pos >= cs.len() {
            break ;
        }
        let c = cs[cur.pos];
        if depth == 0 && (c == ';' || c == '}') {
            break ;
        }
        if c == '(' {
            if depth < usize::MAX {
                depth = depth + 1;
            }
        } else if c == ')' {
            if depth > 0 {
                depth = depth - 1;
            }
        }
        out.push(c);
        if !is_ws_char(c) {
            kept = out.len();
        }
        bump(cs, cur);
    }
    out.truncate(kept);
    string_from_chars(out.as_slice())
}

/// Parses a length-or-percent-or-auto-or-none value for the sizing and
/// margin properties: `none` is the undefined value, `auto` the automatic
/// one, a number followed by `%` a percentage, a number with a `px` unit a
/// pixel length.
fn parse_sizing_value(cs: &Vec<char>, cur: &mut Cursor) -> (r: Result<Value, CssError>)
    requires
        cursor_ok(cs@, *old(cur)),
    ensures
        cursor_ok(cs@, *final(cur)),
        final(cur).pos >= old(cur).pos,
        match spec_sizing_value(cs@, old(cur).pos as int) {
            Some(p) => r matches Ok(v) && v == p.0 && final(cur).pos as int == p.1,
            None => r is Err,
        },
{
    proof {
        lemma_skip_ws_bounds(cs@, old(cur).pos as int);
        lemma_number_bounds(cs@, spec_skip_ws(cs@, old(cur).pos as int));
    }
    skip_ws_and_comments(cs, cur);
    match parse_ident(cs, cur) {
        Some(kw) => {
            if keyword_matches(kw.as_str(), "none") {
                Ok(Value::Undefined)
            } else if keyword_matches(kw.as_str(), "auto") {
                Ok(Value::Auto)
            } else {
                Err(error_at(cur, CssErrorKind::UnexpectedToken(kw)))
            }
        },
        None => {
            let n = match parse_number_thousandths(cs, cur) {
                Ok(n) => n,
                Err(e) => {
                    return Err(e);
                },
            };
            if cur.pos < cs.len() && cs[cur.pos] == '%' {
                bump(cs, cur);
                Ok(Value::Percent(n))
            } else {
                match parse_ident(cs, cur) {
                    Some(unit) => {
                        if keyword_matches(unit.as_str(), "px") {
                            Ok(Value::Px(n))
                        } else {
                            Err(error_at(cur, CssErrorKind::UnexpectedToken(unit)))
                        }
                    },
                    None => Err(unexpected_here(cs, cur)),
                }
            }
        },
    }
}

impl Declaration {
    /// Parses the value of the property called `name` at the cursor. An
    /// unknown property name is a `QualifiedRuleInvalid` error; a malformed
    /// value carries the offending token.
    pub fn parse(name: &str, cs: &Vec<char>, cur: &mut Cursor) -> (r: Result<
        Declaration,
        CssError,
    >)
        requires
            cursor_ok(cs@, *old(cur)),
        ensures
            cursor_ok(cs@, *final(cur)),
            final(cur).pos >= old(cur).pos,
            match spec_declaration(name@, cs@, old(cur).pos as int) {
                Some(p) => r matches Ok(d) && d == p.0 && final(cur).pos as int == p.1,
                None => r is Err,
            },
    {
        proof {
            reveal_strlit("width");
            reveal_strlit("height");
            reveal_strlit("margin-top");
            reveal_strlit("margin-bottom");
            reveal_strlit("margin-left");
            reveal_strlit("margin-right");
            reveal_strlit("background-color");
        }
        if crate::text::str_eq(name, "width") {
            match parse_sizing_value(cs, cur) {
                Ok(v) => Ok(Declaration::Width(v)),
                Err(e) => Err(e),
            }
        } else if crate::text::str_eq(name, "height") {
            match parse_sizing_value(cs, cur) {
                Ok(v) => Ok(Declaration::Height(v)),
                Err(e) => Err(e),
            }
        } else if crate::text::str_eq(name, "margin-top") {
            match parse_sizing_value(cs, cur) {
                Ok(v) => Ok(Declaration::MarginTop(v)),
                Err(e) => Err(e),
            }
        } else if crate::text::str_eq(name, "margin-bottom") {
            match parse_sizing_value(cs, cur) {
                Ok(v) => Ok(Declaration::MarginBottom(v)),
                Err(e) => Err(e),
            }
        } else if crate::text::str_eq(name, "margin-left") {
            match parse_sizing_value(cs, cur) {
                Ok(v) => Ok(Declaration::MarginLeft(v)),
                Err(e) => Err(e),
            }
        } else if crate::text::str_eq(name, "margin-right") {
            match parse_sizing_value(cs, cur) {
                Ok(v) => Ok(Declaration::MarginRight(v)),
                Err(e) => Err(e),
            }
        } else if crate::text::str_eq(name, "background-color") {
            skip_ws_and_comments(cs, cur);
            let at_value = Cursor { pos: cur.pos, line: cur.line, col: cur.col };
            let raw = capture_component_value(cs, cur);
            match parse_css_color(raw.as_str()) {
                Some((red, green, blue, alpha)) => Ok(
                    Declaration::BackgroundColor(red, green, blue, alpha),
                ),
                None => Err(error_at(&at_value, CssErrorKind::UnexpectedToken(raw))),
            }
        } else {
            Err(error_at(cur, CssErrorKind::QualifiedRuleInvalid))
        }
    }
}

/// Parses the inside of a declaration block, the opening brace already
/// consumed; consumes the closing brace. End of input also ends the block.
fn parse_declaration_block(cs: &Vec<char>, cur: &mut Cursor) -> (r: Result<
    Vec<Declaration>,
    CssError,
>)
    requires
        cursor_ok(cs@, *old(cur)),
    ensures
        cursor_ok(cs@, *final(cur)),
        final(cur).pos >= old(cur).pos,
        match spec_decl_block(cs@, old(cur).pos as int, Seq::empty()) {
            Some(p) => r matches Ok(ds) && ds@ == p.0 && final(cur).pos as int == p.1,
            None => r is Err,
        },
{
    let ghost p0 = cur.pos as int;
    let mut decls: Vec<Declaration> = Vec::new();
    loop
        invariant_except_break
            spec_decl_block(cs@, cur.pos as int, decls@) == spec_decl_block(
                cs@,
                p0,
                Seq::empty(),
            ),
        invariant
            cursor_ok(cs@, *cur),
            0 <= p0 <= cur.pos,
            p0 == old(cur).pos as int,
        ensures
            cursor_ok(cs@, *cur),
            p0 <= cur.pos,
            spec_decl_block(cs@, p0, Seq::empty()) == Some((decls@, cur.pos as int)),
        decreases cs@.len() - cur.pos,
    {
        let ghost itop = cur.pos as int;
        skip_ws_and_comments(cs, cur);
        if cur.pos >= cs.len() {
            break ;
        }
        let c = cs[cur.pos];
        if c == '}' {
            bump(cs, cur);
            break ;
        }
        if c == ';' {
            bump(cs, cur);
            continue ;
        }
        let name = match parse_ident(cs, cur) {
            Some(n) => n,
            None => {
                return Err(unexpected_here(cs, cur));
            },
        };
        skip_ws_and_comments(cs, cur);
        if cur.pos >= cs.len() || cs[cur.pos] != ':' {
            return Err(unexpected_here(cs, cur));
        }
        bump(cs, cur);
        proof {
            lemma_declaration_bounds(name@, cs@, cur.pos as int);
        }
        let decl = match Declaration::parse(name.as_str(), cs, cur) {
            Ok(d) => d,
            Err(e) => {
                return Err(e);
            },
        };
        skip_ws_and_comments(cs, cur);
        if cur.pos < cs.len() {
            let t = cs[cur.pos];
            if t == ';' {
                bump(cs, cur);
            } else if t != '}' {
                return Err(unexpected_here(cs, cur));
            }
        }
        decls.push(decl);
    }
    Ok(decls)
}

/// The qualified-rule parser: a selector-list prelude followed by a braced
/// declaration block.
#[derive(Clone, Copy, PartialEq, Eq, Structural, Debug)]
pub struct QualifiedRuleParser;

impl QualifiedRuleParser {
    /// Parses the selector-list prelude of a rule.
    pub fn parse_prelude(cs: &Vec<char>, cur: &mut Cursor) -> (r: Result<SelectorList, CssError>)
        requires
            cursor_ok(cs@, *old(cur)),
        ensures
            cursor_ok(cs@, *final(cur)),
            final(cur).pos >= old(cur).pos,
            match spec_selector_list(cs@, old(cur).pos as int) {
                Some(p) => r matches Ok(sl) && sel_list_view(sl.selectors@) == p.0
                    && final(cur).pos as int == p.1,
                None => r is Err,
            },
    {
        parse_selector_list(cs, cur)
    }

    /// Parses the braced declaration block of a rule, cursor on `{`.
    pub fn parse_block(prelude: SelectorList, cs: &Vec<char>, cur: &mut Cursor) -> (r: Result<
        StyleRule,
        CssError,
    >)
        requires
            cursor_ok(cs@, *old(cur)),
        ensures
            cursor_ok(cs@, *final(cur)),
            final(cur).pos >= old(cur).pos,
            r is Ok ==> final(cur).pos > old(cur).pos,
            (old(cur).pos >= cs@.len() || cs@[old(cur).pos as int] != '{') ==> r is Err,
            (old(cur).pos < cs@.len() && cs@[old(cur).pos as int] == '{') ==> match spec_decl_block(
                cs@,
                old(cur).pos + 1,
                Seq::empty(),
            ) {
                Some(p) => r matches Ok(rule) && rule.selectors == prelude && rule.properties@
                    == p.0 && final(cur).pos as int == p.1,
                None => r is Err,
            },
    {
        if cur.pos >= cs.len() || cs[cur.pos] != '{' {
            return Err(unexpected_here(cs, cur));
        }
        bump(cs, cur);
        match parse_declaration_block(cs, cur) {
            Ok(properties) => Ok(StyleRule { selectors: prelude, properties }),
            Err(e) => Err(e),
        }
    }
}

/// Adds `offset` to the error's line, saturating.
fn offset_error_line(e: CssError, offset: usize) -> (r: CssError) {
    let line = if e.line <= usize::MAX - offset {
        e.line + offset
    } else {
        usize::MAX
    };
    CssError { line, column: e.column, kind: e.kind }
}

impl StyleSheet {
    /// Parses stylesheet text, appending its rules in source order; stops at
    /// the first error, whose reported line is shifted by `line_offset` (for
    /// styles embedded in a larger document).
    pub fn parse(&mut self, text: &str, line_offset: usize) -> (r: Result<(), CssError>)
        ensures
            final(self).rules@.len() >= old(self).rules@.len(),
            forall|k: int|
                0 <= k < old(self).rules@.len() ==> final(self).rules@[k] == old(self).rules@[k],
            ({
                let (rs, ok) = spec_stylesheet_rules(text@);
                &&& (r is Ok <==> ok)
                &&& final(self).rules@.len() == old(self).rules@.len() + rs.len()
                &&& crate::style::rules_view(
                    final(self).rules@.skip(old(self).rules@.len() as int),
                ) == rs
            }),
    {
        let ghost n0 = self.rules@.len() as int;
        let cs = chars_vec(text);
        let mut cur = Cursor { pos: 0, line: 0, col: 0 };
        proof {
            assert(self.rules@.skip(n0) =~= Seq::<StyleRule>::empty());
            assert(crate::style::rules_view(Seq::<StyleRule>::empty()) =~= Seq::<
                RuleView,
            >::empty());
        }
        loop
            invariant_except_break
                spec_stylesheet(
                    cs@,
                    cur.pos as int,
                    crate::style::rules_view(self.rules@.skip(n0)),
                ) == spec_stylesheet_rules(text@),
            invariant
                cursor_ok(cs@, cur),
                cs@ == text@,
                n0 == old(self).rules@.len(),
                self.rules@.len() >= old(self).rules@.len(),
                forall|k: int|
                    0 <= k < old(self).rules@.len() ==> self.rules@[k] == old(self).rules@[k],
            ensures
                self.rules@.len() >= old(self).rules@.len(),
                spec_stylesheet_rules(text@) == (
                    crate::style::rules_view(self.rules@.skip(n0)),
                    true,
                ),
            decreases cs@.len() - cur.pos,
        {
            let ghost itop = cur.pos as int;
            let ghost accv = crate::style::rules_view(self.rules@.skip(n0));
            skip_ws_and_comments(&cs, &mut cur);
            if cur.pos >= cs.len() {
                break ;
            }
            if cs[cur.pos] == '@' {
                let at = Cursor { pos: cur.pos, line: cur.line, col: cur.col };
                bump(&cs, &mut cur);
                let name = match parse_ident(&cs, &mut cur) {
                    Some(n) => n,
                    None => String::new(),
                };
                return Err(offset_error_line(
                    error_at(&at, CssErrorKind::AtRuleInvalid(name)),
                    line_offset,
                ));
            }
            proof {
                lemma_selector_list_bounds(cs@, cur.pos as int);
            }
            let prelude = match QualifiedRuleParser::parse_prelude(&cs, &mut cur) {
                Ok(p) => p,
                Err(e) => {
                    return Err(offset_error_line(e, line_offset));
                },
            };
            let ghost slv = sel_list_view(prelude.selectors@);
            let rule = match QualifiedRuleParser::parse_block(prelude, &cs, &mut cur) {
                Ok(x) => x,
                Err(e) => {
                    return Err(offset_error_line(e, line_offset));
                },
            };
            let ghost prevrules = self.rules@;
            self.rules.push(rule);
            proof {
                crate::style::lemma_rules_view_push(prevrules.skip(n0), rule);
                assert(prevrules.push(rule).skip(n0) =~= prevrules.skip(n0).push(rule));
                assert(crate::style::rule_view(rule) == (RuleView {
                    selectors: slv,
                    properties: rule.properties@,
                }));
            }
        }
        Ok(())
    }
}

impl crate::selector::SelectorParser {
    /// Parses standalone text as a selector list; the whole text must be
    /// consumed.
    pub fn parse(text: &str) -> (r: Result<SelectorList, CssError>)
        ensures
            match spec_selector_text(text@) {
                Some(l) => r matches Ok(sl) && sel_list_view(sl.selectors@) == l,
                None => r is Err,
            },
    {
        let cs = chars_vec(text);
        let mut cur = Cursor { pos: 0, line: 0, col: 0 };
        let list = match parse_selector_list(&cs, &mut cur) {
            Ok(l) => l,
            Err(e) => {
                return Err(e);
            },
        };
        skip_ws_and_comments(&cs, &mut cur);
        if cur.pos < cs.len() {
            return Err(unexpected_here(&cs, &cur));
        }
        Ok(list)
    }
}

/// Whether `c` is an ASCII digit.
fn is_digit_char(c: char) -> (r: bool)
    ensures
        r == ('0' <= c && c <= '9'),
{
    '0' <= c && c <= '9'
}

/// The numeric value of an ASCII digit.
fn digit_value(c: char) -> (r: i64)
    requires
        '0' <= c && c <= '9',
    ensures
        0 <= r <= 9,
        r as int == spec_digit_val(c),
{
    (c as u32 as i64) - ('0' as u32 as i64)
}

} // verus!
