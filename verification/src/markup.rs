//! The markup tokenizer: turns document text into a flat event stream —
//! start/empty/end tags with their attributes, text runs, comments, and the
//! stream-level oddities (CDATA, declarations, processing instructions,
//! DOCTYPE) that the compiler reports as unexpected.
//!
//! Every event carries the character offset just past its end, which is
//! what diagnostics anchor to. The stream always finishes with `Eof`, or
//! with `Malformed` where the text stops being markup.

use vstd::prelude::*;

use crate::text::{char_from_u32, is_ws_char, string_from_chars};

verus! {

/// One tokenized markup event.
#[derive(Debug)]
pub enum MarkupEvent {
    /// `<Name attr="v" ...>`
    Start { name: String, attrs: Vec<(String, String)>, pos: usize },
    /// `<Name attr="v" .../>`
    Empty { name: String, attrs: Vec<(String, String)>, pos: usize },
    /// `</Name>`
    End { name: String, pos: usize },
    /// A run of character data, entities resolved.
    Text { text: String, pos: usize },
    /// `<![CDATA[ ... ]]>`
    CData { pos: usize },
    /// `<?xml ... ?>`
    Decl { pos: usize },
    /// `<? ... ?>` other than the XML declaration.
    PI { pos: usize },
    /// `<!DOCTYPE ... >`
    DocType { pos: usize },
    /// `<!-- ... -->`, always ignored by the compiler.
    Comment { pos: usize },
    /// End of input.
    Eof { pos: usize },
    /// The text stopped being markup here; `detail` says how.
    Malformed { pos: usize, detail: String },
}

/// Resolves `&lt; &gt; &amp; &apos; &quot;` and numeric character
/// references in `cs[from..to]`; `None` on an unknown or malformed entity.
fn unescape_range(cs: &Vec<char>, from: usize, to: usize) -> (r: Option<String>)
    requires
        from <= to <= cs@.len(),
{
    let mut out: Vec<char> = Vec::new();
    let mut i = from;
    while i < to
        invariant
            from <= i,
            to <= cs@.len(),
        decreases to - i,
    {
        let c = cs[i];
        if c != '&' {
            out.push(c);
            i = i + 1;
            continue ;
        }
        // Find the terminating semicolon.
        let mut j = i + 1;
        loop
            invariant
                i < j,
                j <= to,
                to <= cs@.len(),
            decreases to - j,
        {
            if j >= to || cs[j] == ';' {
                break ;
            }
            j = j + 1;
        }
        if j >= to {
            return None;
        }
        let resolved: Option<char> = if j - i == 3 && cs[i + 1] == 'l' && cs[i + 2] == 't' {
            Some('<')
        } else if j - i == 3 && cs[i + 1] == 'g' && cs[i + 2] == 't' {
            Some('>')
        } else if j - i == 4 && cs[i + 1] == 'a' && cs[i + 2] == 'm' && cs[i + 3] == 'p' {
            Some('&')
        } else if j - i == 5 && cs[i + 1] == 'a' && cs[i + 2] == 'p' && cs[i + 3] == 'o' && cs[i
            + 4] == 's' {
            Some('\'')
        } else if j - i == 5 && cs[i + 1] == 'q' && cs[i + 2] == 'u' && cs[i + 3] == 'o' && cs[i
            + 4] == 't' {
            Some('"')
        } else if j - i > 2 && cs[i + 1] == '#' {
            parse_char_ref(cs, i + 2, j)
        } else {
            None
        };
        match resolved {
            Some(ch) => {
                out.push(ch);
                i = j + 1;
            },
            None => {
                return None;
            },
        }
    }
    Some(string_from_chars(out.as_slice()))
}

/// Resolves a numeric character reference body `cs[from..to]` (after `#`):
/// decimal digits, or `x`/`X` followed by hex digits.
fn parse_char_ref(cs: &Vec<char>, from: usize, to: usize) -> (r: Option<char>)
    requires
        from < to,
        to <= cs@.len(),
{
    let hex = cs[from] == 'x' || cs[from] == 'X';
    let mut i = if hex {
        from + 1
    } else {
        from
    };
    if i >= to {
        return None;
    }
    let mut v: u32 = 0;
    while i < to
        invariant
            i <= to,
            to <= cs@.len(),
            v <= 0x10FFFF,
        decreases to - i,
    {
        let c = cs[i];
        let d: u32 = if '0' <= c && c <= '9' {
            (c as u32) - ('0' as u32)
        } else if hex && 'a' <= c && c <= 'f' {
            (c as u32) - ('a' as u32) + 10
        } else if hex && 'A' <= c && c <= 'F' {
            (c as u32) - ('A' as u32) + 10
        } else {
            return None;
        };
        if v > 0x10FFFF / 16 {
            return None;
        }
        if hex {
            v = v * 16 + d;
        } else {
            v = v * 10 + d;
        }
        if v > 0x10FFFF {
            return None;
        }
        i = i + 1;
    }
    char_from_u32(v)
}

/// Reads a tag or attribute name: characters up to whitespace, `=`, `/`,
/// `>` or end of input.
fn read_name(cs: &Vec<char>, i: &mut usize) -> (r: String)
    requires
        *old(i) <= cs@.len(),
    ensures
        *old(i) <= *final(i) <= cs@.len(),
{
    let start = *i;
    loop
        invariant
            start <= *i <= cs@.len(),
        decreases cs@.len() - *i,
    {
        if *i >= cs.len() {
            break ;
        }
        let c = cs[*i];
        if is_ws_char(c) || c == '=' || c == '/' || c == '>' {
            break ;
        }
        *i = *i + 1;
    }
    let mut out: Vec<char> = Vec::new();
    let mut k = start;
    while k < *i
        invariant
            start <= k,
            *i <= cs@.len(),
        decreases *i - k,
    {
        out.push(cs[k]);
        k = k + 1;
    }
    string_from_chars(out.as_slice())
}

/// Skips whitespace.
fn skip_ws(cs: &Vec<char>, i: &mut usize)
    requires
        *old(i) <= cs@.len(),
    ensures
        *old(i) <= *final(i) <= cs@.len(),
{
    loop
        invariant
            *old(i) <= *i <= cs@.len(),
        decreases cs@.len() - *i,
    {
        if *i >= cs.len() || !is_ws_char(cs[*i]) {
            break ;
        }
        *i = *i + 1;
    }
}

/// Reads the attribute list of a tag, stopping before `/` or `>`. `None`
/// stands for malformed attribute syntax.
fn read_attrs(cs: &Vec<char>, i: &mut usize) -> (r: Option<Vec<(String, String)>>)
    requires
        *old(i) <= cs@.len(),
    ensures
        *old(i) <= *final(i) <= cs@.len(),
{
    let mut attrs: Vec<(String, String)> = Vec::new();
    loop
        invariant
            *old(i) <= *i <= cs@.len(),
        decreases cs@.len() - *i,
    {
        skip_ws(cs, i);
        if *i >= cs.len() {
            return Some(attrs);
        }
        let c = cs[*i];
        if c == '/' || c == '>' {
            return Some(attrs);
        }
        let name = read_name(cs, i);
        if name.unicode_len() == 0 {
            return None;
        }
        skip_ws(cs, i);
        if *i >= cs.len() || cs[*i] != '=' {
            return None;
        }
        *i = *i + 1;
        skip_ws(cs, i);
        if *i >= cs.len() {
            return None;
        }
        let quote = cs[*i];
        if quote != '"' && quote != '\'' {
            return None;
        }
        *i = *i + 1;
        let vstart = *i;
        loop
            invariant
                vstart <= *i <= cs@.len(),
            decreases cs@.len() - *i,
        {
            if *i >= cs.len() || cs[*i] == quote {
                break ;
            }
            *i = *i + 1;
        }
        if *i >= cs.len() {
            return None;
        }
        let value = match unescape_range(cs, vstart, *i) {
            Some(v) => v,
            None => {
                return None;
            },
        };
        *i = *i + 1;
        attrs.push((name, value));
    }
}

/// Whether `cs[at..]` starts with the ASCII `pat`.
fn starts_with_at(cs: &Vec<char>, at: usize, pat: &str) -> (r: bool)
    requires
        at <= cs@.len(),
    ensures
        r ==> at + pat@.len() <= cs@.len(),
{
    let n = pat.unicode_len();
    let m = cs.len();
    if n > m - at {
        return false;
    }
    let mut k: usize = 0;
    while k < n
        invariant
            n == pat@.len(),
            m == cs@.len(),
            at + n <= m,
            k <= n,
        decreases n - k,
    {
        if cs[at + k] != pat.get_char(k) {
            return false;
        }
        k = k + 1;
    }
    true
}

/// Consumes `pat` at `*i` when it is present there.
fn eat(cs: &Vec<char>, i: &mut usize, pat: &str) -> (r: bool)
    requires
        *old(i) <= cs@.len(),
    ensures
        *old(i) <= *final(i) <= cs@.len(),
        !r ==> *final(i) == *old(i),
        r ==> *final(i) > *old(i),
{
    let pn = pat.unicode_len();
    let m = cs.len();
    if pn == 0 {
        return false;
    }
    if starts_with_at(cs, *i, pat) {
        proof {
            assert(*i + pn <= m);
        }
        *i = *i + pn;
        true
    } else {
        false
    }
}

/// Advances past the first occurrence of `pat` at or after `*i`; false when
/// the pattern never occurs (leaving `*i` at the end).
fn skip_past(cs: &Vec<char>, i: &mut usize, pat: &str) -> (r: bool)
    requires
        *old(i) <= cs@.len(),
    ensures
        *old(i) <= *final(i) <= cs@.len(),
{
    let pn = pat.unicode_len();
    let m = cs.len();
    if pn == 0 {
        return true;
    }
    loop
        invariant
            *old(i) <= *i <= cs@.len(),
            pn == pat@.len(),
            m == cs@.len(),
        decreases cs@.len() - *i,
    {
        if *i >= cs.len() {
            return false;
        }
        if starts_with_at(cs, *i, pat) {
            proof {
                assert(*i + pn <= m);
            }
            *i = *i + pn;
            return true;
        }
        *i = *i + 1;
    }
}

/// A malformed-markup event at `pos`.
fn malformed(pos: usize, detail: &str) -> (r: MarkupEvent)
    ensures
        r matches MarkupEvent::Malformed { .. },
{
    MarkupEvent::Malformed { pos, detail: detail.to_owned() }
}

/// Tokenizes document text into its event stream. The stream ends with
/// `Eof` after the last event, or with `Malformed` where tokenizing had to
/// stop.
pub fn tokenize(cs: &Vec<char>) -> (r: Vec<MarkupEvent>)
    ensures
        r@.len() >= 1,
        (r@[r@.len() - 1] matches MarkupEvent::Eof { .. }) || (r@[r@.len() - 1]
            matches MarkupEvent::Malformed { .. }),
{
    let mut events: Vec<MarkupEvent> = Vec::new();
    let mut i: usize = 0;
    let n = cs.len();
    loop
        invariant
            i <= n,
            n == cs@.len(),
        decreases n - i,
    {
        // A run of character data up to the next tag.
        let tstart = i;
        loop
            invariant
                tstart <= i <= n,
                n == cs@.len(),
            decreases n - i,
        {
            if i >= n || cs[i] == '<' {
                break ;
            }
            i = i + 1;
        }
        if i > tstart {
            match unescape_range(cs, tstart, i) {
                Some(text) => events.push(MarkupEvent::Text { text, pos: i }),
                None => {
                    events.push(malformed(i, "bad entity in text"));
                    return events;
                },
            }
        }
        if i >= n {
            events.push(MarkupEvent::Eof { pos: i });
            return events;
        }
        // A tag of some kind begins here.
        if eat(cs, &mut i, "<!--") {
            if !skip_past(cs, &mut i, "-->") {
                events.push(malformed(i, "unterminated comment"));
                return events;
            }
            events.push(MarkupEvent::Comment { pos: i });
        } else if eat(cs, &mut i, "<![CDATA[") {
            if !skip_past(cs, &mut i, "]]>") {
                events.push(malformed(i, "unterminated CDATA section"));
                return events;
            }
            events.push(MarkupEvent::CData { pos: i });
        } else if eat(cs, &mut i, "<!DOCTYPE") {
            if !skip_past(cs, &mut i, ">") {
                events.push(malformed(i, "unterminated DOCTYPE"));
                return events;
            }
            events.push(MarkupEvent::DocType { pos: i });
        } else if eat(cs, &mut i, "<?xml") {
            if !skip_past(cs, &mut i, "?>") {
                events.push(malformed(i, "unterminated XML declaration"));
                return events;
            }
            events.push(MarkupEvent::Decl { pos: i });
        } else if eat(cs, &mut i, "<?") {
            if !skip_past(cs, &mut i, "?>") {
                events.push(malformed(i, "unterminated processing instruction"));
                return events;
            }
            events.push(MarkupEvent::PI { pos: i });
        } else if starts_with_at(cs, i, "<!") {
            events.push(malformed(i, "unsupported markup declaration"));
            return events;
        } else if eat(cs, &mut i, "</") {
            let name = read_name(cs, &mut i);
            if name.unicode_len() == 0 {
                events.push(malformed(i, "missing closing-tag name"));
                return events;
            }
            skip_ws(cs, &mut i);
            if i >= n || cs[i] != '>' {
                events.push(malformed(i, "malformed closing tag"));
                return events;
            }
            i = i + 1;
            events.push(MarkupEvent::End { name, pos: i });
        } else {
            i = i + 1;
            let name = read_name(cs, &mut i);
            if name.unicode_len() == 0 {
                events.push(malformed(i, "missing tag name"));
                return events;
            }
            let attrs = match read_attrs(cs, &mut i) {
                Some(a) => a,
                None => {
                    events.push(malformed(i, "malformed attribute"));
                    return events;
                },
            };
            if i < n && cs[i] == '/' {
                if i + 1 < n && cs[i + 1] == '>' {
                    i = i + 2;
                    events.push(MarkupEvent::Empty { name, attrs, pos: i });
                } else {
                    events.push(malformed(i, "malformed self-closing tag"));
                    return events;
                }
            } else if i < n && cs[i] == '>' {
                i = i + 1;
                events.push(MarkupEvent::Start { name, attrs, pos: i });
            } else {
                events.push(malformed(i, "unterminated tag"));
                return events;
            }
        }
    }
}

} // verus!
