//! Diagnostics: kinds, severity levels, and the reporter that owns source
//! files, accumulates diagnostics, translates positions, and gates the
//! compile at its checkpoint.

use vstd::prelude::*;

use crate::css::CssError;

verus! {

/// Severity of a diagnostic. `Info` and `Warn` accumulate without failing a
/// compile; `Error` and `Bug` make the checkpoint fail.
#[derive(Clone, Copy, PartialEq, Eq, Structural, Debug)]
pub enum Level {
    Bug,
    Error,
    Warn,
    Info,
}

/// Whether diagnostics of this level make the checkpoint fail.
pub open spec fn is_blocking(l: Level) -> bool {
    l == Level::Bug || l == Level::Error
}

/// What a diagnostic reports.
#[derive(Debug)]
pub enum DiagnosticKind {
    InvalidElement { el: String },
    InvalidContext { el: String, parent: String },
    InvalidAttribute { el: String, attr: String },
    ExpectedSelfClosing { el: String },
    ExpectedClosingTag { el: String },
    UnexpectedText,
    UnexpectedCData,
    UnexpectedDecl,
    UnexpectedPI,
    UnexpectedDocType,
    UnexpectedEof,
    IOError(String),
    NetworkError(String),
    UrlParseError(String),
    ParseError(String),
    CssParseError(CssError),
    PreprocessorError(String),
}

/// One diagnostic: its kind, an optional `(file, offset)` location, and the
/// least severity it should be rendered at.
#[derive(Debug)]
pub struct Diagnostic {
    pub kind: DiagnosticKind,
    pub location: Option<(usize, usize)>,
    pub min_level: Level,
}

/// A registered source file.
#[derive(Debug)]
pub struct SourceFile {
    pub name: String,
    pub contents: String,
}

/// The diagnostic reporter: registered files and accumulated diagnostics.
#[derive(Debug)]
pub struct Reporter {
    pub files: Vec<SourceFile>,
    pub diagnostics: Vec<Diagnostic>,
}

/// The character offset where 0-based line `line` starts in `s`.
pub open spec fn spec_line_start(s: Seq<char>, line: int) -> int
    decreases s.len(),
{
    if line <= 0 || s.len() == 0 {
        0
    } else if s[0] == '\n' {
        1 + spec_line_start(s.drop_first(), line - 1)
    } else {
        1 + spec_line_start(s.drop_first(), line)
    }
}

/// How many line breaks occur strictly before offset `pos` in `s`.
pub open spec fn spec_line_of(s: Seq<char>, pos: int) -> int
    decreases s.len(),
{
    if pos <= 0 || s.len() == 0 {
        0
    } else if s[0] == '\n' {
        1 + spec_line_of(s.drop_first(), pos - 1)
    } else {
        spec_line_of(s.drop_first(), pos - 1)
    }
}

/// The character offset of 0-based `(line, col)` in `s`, clamped to the
/// text's length.
pub open spec fn spec_position(s: Seq<char>, line: int, col: int) -> int {
    if spec_line_start(s, line) + col <= s.len() {
        spec_line_start(s, line) + col
    } else {
        s.len() as int
    }
}

/// Whether any diagnostic of the sequence blocks the compile.
pub open spec fn has_blocking(ds: Seq<Diagnostic>) -> bool {
    exists|i: int| 0 <= i < ds.len() && is_blocking(ds[i].min_level)
}

/// Recording further diagnostics never clears a blocking one.
pub proof fn lemma_blocking_monotonic(ds: Seq<Diagnostic>, d: Diagnostic)
    requires
        has_blocking(ds),
    ensures
        has_blocking(ds.push(d)),
{
    let i = choose|i: int| 0 <= i < ds.len() && is_blocking(ds[i].min_level);
    assert(ds.push(d)[i] == ds[i]);
}

impl Reporter {
    /// A reporter with no files and no diagnostics.
    pub fn new() -> (r: Reporter)
        ensures
            r.files@.len() == 0,
            r.diagnostics@.len() == 0,
    {
        Reporter { files: Vec::new(), diagnostics: Vec::new() }
    }

    /// Registers a source file and returns its id.
    pub fn add_file(&mut self, filename: String, source: String) -> (id: usize)
        ensures
            id == old(self).files@.len(),
            final(self).files@ == old(self).files@.push(
                SourceFile { name: filename, contents: source },
            ),
            final(self).diagnostics == old(self).diagnostics,
    {
        let id = self.files.len();
        self.files.push(SourceFile { name: filename, contents: source });
        id
    }

    /// Records a diagnostic.
    pub fn add_diagnostic(&mut self, diagnostic: Diagnostic)
        ensures
            final(self).diagnostics@ == old(self).diagnostics@.push(diagnostic),
            final(self).files == old(self).files,
    {
        self.diagnostics.push(diagnostic);
    }

    /// The character offset of 0-based `(line, col)` in file `file`,
    /// clamped to the file's length.
    pub fn get_position(&self, file: usize, line: usize, col: usize) -> (r: usize)
        requires
            file < self.files@.len(),
        ensures
            r <= self.files@[file as int].contents@.len(),
            r as int == spec_position(
                self.files@[file as int].contents@,
                line as int,
                col as int,
            ),
    {
        let s: &str = self.files[file].contents.as_str();
        let n = s.unicode_len();
        let mut i: usize = 0;
        let mut remaining = line;
        proof {
            assert(s@.skip(0) =~= s@);
        }
        while i < n && remaining > 0
            invariant
                n == s@.len(),
                i <= n,
                spec_line_start(s@, line as int) == i + spec_line_start(
                    s@.skip(i as int),
                    remaining as int,
                ),
                remaining <= line,
            decreases n - i,
        {
            proof {
                assert(s@.skip(i as int).drop_first() =~= s@.skip(i as int + 1));
                assert(s@.skip(i as int)[0] == s@[i as int]);
            }
            if s.get_char(i) == '\n' {
                remaining = remaining - 1;
            }
            i = i + 1;
        }
        proof {
            if remaining == 0 {
                assert(spec_line_start(s@.skip(i as int), 0) == 0);
            } else {
                assert(s@.skip(i as int) =~= Seq::<char>::empty());
            }
        }
        if col <= n - i {
            i + col
        } else {
            n
        }
    }

    /// The 0-based line index holding character offset `pos` of file
    /// `file` (line breaks strictly before `pos`).
    pub fn get_line(&self, file: usize, pos: usize) -> (r: usize)
        requires
            file < self.files@.len(),
        ensures
            r == spec_line_of(self.files@[file as int].contents@, pos as int),
    {
        let s: &str = self.files[file].contents.as_str();
        let n = s.unicode_len();
        let mut i: usize = 0;
        let mut count: usize = 0;
        proof {
            assert(s@.skip(0) =~= s@);
        }
        while i < n && i < pos
            invariant
                n == s@.len(),
                i <= n,
                count <= i,
                spec_line_of(s@, pos as int) == count + spec_line_of(
                    s@.skip(i as int),
                    pos - i,
                ),
            decreases n - i,
        {
            proof {
                assert(s@.skip(i as int).drop_first() =~= s@.skip(i as int + 1));
                assert(s@.skip(i as int)[0] == s@[i as int]);
            }
            if s.get_char(i) == '\n' {
                count = count + 1;
            }
            i = i + 1;
        }
        proof {
            if i >= pos {
                assert(spec_line_of(s@.skip(i as int), pos - i) == 0);
            } else {
                assert(s@.skip(i as int) =~= Seq::<char>::empty());
            }
        }
        count
    }

    /// The checkpoint: succeeds exactly when no accumulated diagnostic is
    /// at `Error` or `Bug` level.
    pub fn checkpoint(&self) -> (r: Result<(), ()>)
        ensures
            r is Ok <==> !has_blocking(self.diagnostics@),
    {
        let mut i: usize = 0;
        while i < self.diagnostics.len()
            invariant
                i <= self.diagnostics@.len(),
                forall|k: int| 0 <= k < i ==> !is_blocking(self.diagnostics@[k].min_level),
            decreases self.diagnostics@.len() - i,
        {
            let blocking = match self.diagnostics[i].min_level {
                Level::Bug => true,
                Level::Error => true,
                Level::Warn => false,
                Level::Info => false,
            };
            if blocking {
                proof {
                    assert(is_blocking(self.diagnostics@[i as int].min_level));
                }
                return Err(());
            }
            i = i + 1;
        }
        Ok(())
    }
}

} // verus!
