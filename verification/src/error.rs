//! Diagnostics: the error type of the compiler, its stable codes and its
//! rendering.

use vstd::prelude::*;
use crate::text::{cat2, cat3, cat5, chars_of, decimal, decimal_string};

verus! {

/// A source location: a byte offset and length in the UTF-8 source, with
/// the 1-based line and column (counted in characters) of the offset.
#[derive(Debug, Clone, Copy)]
pub struct Span {
    pub offset: usize,
    pub length: usize,
    pub line: usize,
    pub column: usize,
}

/// Every error the compiler reports.
#[derive(Debug)]
pub enum MdsError {
    Syntax { message: String, span: Option<Span> },
    UndefinedVar { name: String, span: Option<Span> },
    UndefinedFn { name: String },
    Arity { name: String, expected: usize, got: usize },
    ImportError { message: String, span: Option<Span> },
    ExportError { message: String },
    CircularImport { cycle: String, span: Option<Span> },
    FileNotFound { path: String, span: Option<Span> },
    NotMdsFile { path: String },
    NameCollision { name: String, span: Option<Span> },
    ResourceLimit { message: String },
    YamlError { message: String },
    Extends { message: String, span: Option<Span> },
}

/// A span as handed to tools: line and column are given when known.
#[derive(Debug, Clone, Copy)]
pub struct SerializedSpan {
    pub offset: usize,
    pub length: usize,
    pub line: Option<usize>,
    pub column: Option<usize>,
}

/// An error as handed to tools: a stable code, the rendered message, an
/// optional hint and an optional span.
#[derive(Debug)]
pub struct SerializedError {
    pub code: String,
    pub message: String,
    pub help: Option<String>,
    pub span: Option<SerializedSpan>,
}

/// Number of newlines in `s[0..n]`.
pub open spec fn newlines_before(s: Seq<char>, n: int) -> nat
    decreases n,
{
    if n <= 0 || s.len() == 0 {
        0
    } else if n > s.len() {
        newlines_before(s, s.len() as int)
    } else {
        newlines_before(s, n - 1) + if s[n - 1] == '\n' { 1nat } else { 0nat }
    }
}

/// Offset of the start of the line that holds position `n` of `s`.
pub open spec fn line_start_before(s: Seq<char>, n: int) -> int
    decreases n,
{
    if n <= 0 || s.len() == 0 {
        0
    } else if n > s.len() {
        line_start_before(s, s.len() as int)
    } else if s[n - 1] == '\n' {
        n
    } else {
        line_start_before(s, n - 1)
    }
}

/// The span of the `length` characters at character `offset` of `source`
/// (both cut to the source's end), its offset and length given in bytes.
pub open spec fn span_in(source: Seq<char>, offset: usize, length: usize) -> Span {
    let o = if offset <= source.len() { offset as int } else { source.len() as int };
    let e = if o + length <= source.len() { o + length } else { source.len() as int };
    let line = 1 + newlines_before(source, o);
    let column = 1 + o - line_start_before(source, o);
    Span {
        offset: vstd::utf8::encode_utf8(source.subrange(0, o)).len() as usize,
        length: vstd::utf8::encode_utf8(source.subrange(o, e)).len() as usize,
        line: if line <= usize::MAX { line as usize } else { usize::MAX },
        column: if column <= usize::MAX { column as usize } else { usize::MAX },
    }
}

proof fn lemma_line_bounds(s: Seq<char>, n: int)
    requires
        0 <= n <= s.len(),
    ensures
        newlines_before(s, n) <= n,
        0 <= line_start_before(s, n) <= n,
    decreases n,
{
    if n > 0 {
        lemma_line_bounds(s, n - 1);
    }
}

/// Locate `offset` in `source`.
pub fn span_at(source: &str, offset: usize, length: usize) -> (sp: Span)
    ensures
        sp == span_in(source@, offset, length),
{
    let v = chars_of(source);
    let o = if offset <= v.len() { offset } else { v.len() };
    let mut i: usize = 0;
    let mut lines: usize = 0;
    let mut start: usize = 0;
    while i < o
        invariant
            v@ == source@,
            o <= v@.len(),
            i <= o,
            lines as int == newlines_before(v@, i as int),
            start as int == line_start_before(v@, i as int),
            lines <= i,
            start <= i,
        decreases o - i,
    {
        if v[i] == '\n' {
            lines = lines + 1;
            start = i + 1;
        }
        i = i + 1;
    }
    proof {
        lemma_line_bounds(v@, o as int);
    }
    let line = if lines < usize::MAX { lines + 1 } else { lines };
    let col = o - start;
    let column = if col < usize::MAX { col + 1 } else { col };
    let e = if length <= v.len() - o { o + length } else { v.len() };
    let before = crate::text::text_of(&v, 0, o);
    let within = crate::text::text_of(&v, o, e);
    Span { offset: before.as_str().len(), length: within.as_str().len(), line, column }
}

/// The stable diagnostic code of each kind of error.
pub open spec fn code_of(e: MdsError) -> Seq<char> {
    match e {
        MdsError::Syntax { .. } => "mds::syntax"@,
        MdsError::UndefinedVar { .. } => "mds::undefined_var"@,
        MdsError::UndefinedFn { .. } => "mds::undefined_fn"@,
        MdsError::Arity { .. } => "mds::arity"@,
        MdsError::ImportError { .. } => "mds::import"@,
        MdsError::ExportError { .. } => "mds::export"@,
        MdsError::CircularImport { .. } => "mds::circular_import"@,
        MdsError::FileNotFound { .. } => "mds::file_not_found"@,
        MdsError::NotMdsFile { .. } => "mds::not_mds_file"@,
        MdsError::NameCollision { .. } => "mds::name_collision"@,
        MdsError::ResourceLimit { .. } => "mds::resource_limit"@,
        MdsError::YamlError { .. } => "mds::yaml"@,
        MdsError::Extends { .. } => "mds::extends"@,
    }
}

/// The rendered message of each kind of error.
pub open spec fn message_of(e: MdsError) -> Seq<char> {
    match e {
        MdsError::Syntax { message, .. } => "syntax error: "@ + message@,
        MdsError::UndefinedVar { name, .. } => "undefined variable '"@ + name@ + "'"@,
        MdsError::UndefinedFn { name } => "undefined function '"@ + name@ + "'"@,
        MdsError::Arity { name, expected, got } => "function '"@ + name@ + "' expects "@
            + decimal(expected as nat) + " argument(s), got "@ + decimal(got as nat),
        MdsError::ImportError { message, .. } => "import error: "@ + message@,
        MdsError::ExportError { message } => "export error: "@ + message@,
        MdsError::CircularImport { cycle, .. } => "circular import detected: "@ + cycle@,
        MdsError::FileNotFound { path, .. } => "file not found: \""@ + path@ + "\""@,
        MdsError::NotMdsFile { path } => "not an MDS file: \""@ + path@
            + "\" (expected .mds, or .md with `type: mds` frontmatter)"@,
        MdsError::NameCollision { name, .. } => "name collision: '"@ + name@
            + "' is already defined"@,
        MdsError::ResourceLimit { message } => "resource limit exceeded: "@ + message@,
        MdsError::YamlError { message } => "invalid YAML frontmatter: "@ + message@,
        MdsError::Extends { message, .. } => "template inheritance error: "@ + message@,
    }
}

/// The span an error carries, if any.
pub open spec fn span_of(e: MdsError) -> Option<Span> {
    match e {
        MdsError::Syntax { span, .. } => span,
        MdsError::UndefinedVar { span, .. } => span,
        MdsError::ImportError { span, .. } => span,
        MdsError::CircularImport { span, .. } => span,
        MdsError::FileNotFound { span, .. } => span,
        MdsError::NameCollision { span, .. } => span,
        MdsError::Extends { span, .. } => span,
        _ => None,
    }
}

impl MdsError {
    pub fn syntax(message: &str) -> (e: MdsError)
        ensures
            e matches MdsError::Syntax { message: m, span: None } && m@ == message@,
    {
        MdsError::Syntax { message: message.to_owned(), span: None }
    }

    pub fn syntax_at(message: &str, source: &str, offset: usize, length: usize) -> (e: MdsError)
        ensures
            e matches MdsError::Syntax { message: m, span: Some(sp) } && m@ == message@
                && sp == span_in(source@, offset, length),
    {
        MdsError::Syntax { message: message.to_owned(), span: Some(span_at(source, offset, length)) }
    }

    pub fn undefined_var(name: &str) -> (e: MdsError)
        ensures
            e matches MdsError::UndefinedVar { name: n, span: None } && n@ == name@,
    {
        MdsError::UndefinedVar { name: name.to_owned(), span: None }
    }

    pub fn undefined_fn(name: &str) -> (e: MdsError)
        ensures
            e matches MdsError::UndefinedFn { name: n } && n@ == name@,
    {
        MdsError::UndefinedFn { name: name.to_owned() }
    }

    pub fn arity(name: &str, expected: usize, got: usize) -> (e: MdsError)
        ensures
            e matches MdsError::Arity { name: n, expected: x, got: g } && n@ == name@
                && x == expected && g == got,
    {
        MdsError::Arity { name: name.to_owned(), expected, got }
    }

    pub fn import_error(message: &str) -> (e: MdsError)
        ensures
            e matches MdsError::ImportError { message: m, span: None } && m@ == message@,
    {
        MdsError::ImportError { message: message.to_owned(), span: None }
    }

    pub fn import_error_at(message: &str, source: &str, offset: usize, length: usize) -> (e: MdsError)
        ensures
            e matches MdsError::ImportError { message: m, span: Some(sp) } && m@ == message@
                && sp == span_in(source@, offset, length),
    {
        MdsError::ImportError {
            message: message.to_owned(),
            span: Some(span_at(source, offset, length)),
        }
    }

    pub fn export_error(message: &str) -> (e: MdsError)
        ensures
            e matches MdsError::ExportError { message: m } && m@ == message@,
    {
        MdsError::ExportError { message: message.to_owned() }
    }

    pub fn circular_import(cycle: &str) -> (e: MdsError)
        ensures
            e matches MdsError::CircularImport { cycle: c, span: None } && c@ == cycle@,
    {
        MdsError::CircularImport { cycle: cycle.to_owned(), span: None }
    }

    pub fn circular_import_at(cycle: &str, source: &str, offset: usize, length: usize) -> (e: MdsError)
        ensures
            e matches MdsError::CircularImport { cycle: c, span: Some(sp) } && c@ == cycle@
                && sp == span_in(source@, offset, length),
    {
        MdsError::CircularImport {
            cycle: cycle.to_owned(),
            span: Some(span_at(source, offset, length)),
        }
    }

    pub fn file_not_found(path: &str) -> (e: MdsError)
        ensures
            e matches MdsError::FileNotFound { path: p, span: None } && p@ == path@,
    {
        MdsError::FileNotFound { path: path.to_owned(), span: None }
    }

    pub fn file_not_found_at(path: &str, source: &str, offset: usize, length: usize) -> (e: MdsError)
        ensures
            e matches MdsError::FileNotFound { path: p, span: Some(sp) } && p@ == path@
                && sp == span_in(source@, offset, length),
    {
        MdsError::FileNotFound { path: path.to_owned(), span: Some(span_at(source, offset, length)) }
    }

    pub fn not_mds_file(path: &str) -> (e: MdsError)
        ensures
            e matches MdsError::NotMdsFile { path: p } && p@ == path@,
    {
        MdsError::NotMdsFile { path: path.to_owned() }
    }

    pub fn name_collision(name: &str) -> (e: MdsError)
        ensures
            e matches MdsError::NameCollision { name: n, span: None } && n@ == name@,
    {
        MdsError::NameCollision { name: name.to_owned(), span: None }
    }

    pub fn name_collision_at(name: &str, source: &str, offset: usize, length: usize) -> (e: MdsError)
        ensures
            e matches MdsError::NameCollision { name: n, span: Some(sp) } && n@ == name@
                && sp == span_in(source@, offset, length),
    {
        MdsError::NameCollision { name: name.to_owned(), span: Some(span_at(source, offset, length)) }
    }

    pub fn resource_limit(message: &str) -> (e: MdsError)
        ensures
            e matches MdsError::ResourceLimit { message: m } && m@ == message@,
    {
        MdsError::ResourceLimit { message: message.to_owned() }
    }

    pub fn yaml_error(message: &str) -> (e: MdsError)
        ensures
            e matches MdsError::YamlError { message: m } && m@ == message@,
    {
        MdsError::YamlError { message: message.to_owned() }
    }

    pub fn extends_error_at(message: &str, file: &str, source: &str, offset: usize, length: usize) -> (e: MdsError)
        ensures
            e matches MdsError::Extends { message: m, span: Some(sp) } && m@ == message@
                && sp == span_in(source@, offset, length),
    {
        MdsError::Extends { message: message.to_owned(), span: Some(span_at(source, offset, length)) }
    }

    /// The stable diagnostic code, such as `mds::syntax`.
    pub fn code(&self) -> (c: String)
        ensures
            c@ == code_of(*self),
    {
        match self {
            MdsError::Syntax { .. } => "mds::syntax".to_owned(),
            MdsError::UndefinedVar { .. } => "mds::undefined_var".to_owned(),
            MdsError::UndefinedFn { .. } => "mds::undefined_fn".to_owned(),
            MdsError::Arity { .. } => "mds::arity".to_owned(),
            MdsError::ImportError { .. } => "mds::import".to_owned(),
            MdsError::ExportError { .. } => "mds::export".to_owned(),
            MdsError::CircularImport { .. } => "mds::circular_import".to_owned(),
            MdsError::FileNotFound { .. } => "mds::file_not_found".to_owned(),
            MdsError::NotMdsFile { .. } => "mds::not_mds_file".to_owned(),
            MdsError::NameCollision { .. } => "mds::name_collision".to_owned(),
            MdsError::ResourceLimit { .. } => "mds::resource_limit".to_owned(),
            MdsError::YamlError { .. } => "mds::yaml".to_owned(),
            MdsError::Extends { .. } => "mds::extends".to_owned(),
        }
    }

    /// The rendered, human-readable message.
    pub fn to_string(&self) -> (m: String)
        ensures
            m@ == message_of(*self),
    {
        match self {
            MdsError::Syntax { message, .. } => cat2("syntax error: ", message.as_str()),
            MdsError::UndefinedVar { name, .. } => cat3("undefined variable '", name.as_str(), "'"),
            MdsError::UndefinedFn { name } => cat3("undefined function '", name.as_str(), "'"),
            MdsError::Arity { name, expected, got } => {
                let e = decimal_string(*expected);
                let g = decimal_string(*got);
                let head = cat5("function '", name.as_str(), "' expects ", e.as_str(), " argument(s), got ");
                cat2(head.as_str(), g.as_str())
            },
            MdsError::ImportError { message, .. } => cat2("import error: ", message.as_str()),
            MdsError::ExportError { message } => cat2("export error: ", message.as_str()),
            MdsError::CircularImport { cycle, .. } => cat2("circular import detected: ", cycle.as_str()),
            MdsError::FileNotFound { path, .. } => cat3("file not found: \"", path.as_str(), "\""),
            MdsError::NotMdsFile { path } => cat3(
                "not an MDS file: \"",
                path.as_str(),
                "\" (expected .mds, or .md with `type: mds` frontmatter)",
            ),
            MdsError::NameCollision { name, .. } => cat3("name collision: '", name.as_str(), "' is already defined"),
            MdsError::ResourceLimit { message } => cat2("resource limit exceeded: ", message.as_str()),
            MdsError::YamlError { message } => cat2("invalid YAML frontmatter: ", message.as_str()),
            MdsError::Extends { message, .. } => cat2("template inheritance error: ", message.as_str()),
        }
    }

    /// The span this error carries, if any.
    pub fn span(&self) -> (s: Option<Span>)
        ensures
            s == span_of(*self),
    {
        match self {
            MdsError::Syntax { span, .. } => *span,
            MdsError::UndefinedVar { span, .. } => *span,
            MdsError::ImportError { span, .. } => *span,
            MdsError::CircularImport { span, .. } => *span,
            MdsError::FileNotFound { span, .. } => *span,
            MdsError::NameCollision { span, .. } => *span,
            MdsError::Extends { span, .. } => *span,
            _ => None,
        }
    }

    /// The error as handed to tools: code, message and span.
    pub fn serialize(&self) -> (s: SerializedError)
        ensures
            s.code@ == code_of(*self),
            s.message@ == message_of(*self),
            s.help is None,
            s.span is Some <==> span_of(*self) is Some,
            span_of(*self) matches Some(sp) ==> s.span == Some(SerializedSpan {
                offset: sp.offset,
                length: sp.length,
                line: Some(sp.line),
                column: Some(sp.column),
            }),
    {
        let span = match self.span() {
            Some(sp) => Some(SerializedSpan {
                offset: sp.offset,
                length: sp.length,
                line: Some(sp.line),
                column: Some(sp.column),
            }),
            None => None,
        };
        SerializedError { code: self.code(), message: self.to_string(), help: None, span }
    }
}

} // verus!
