//! Checks on import paths, module keys and the file-type marker of a module.

use vstd::prelude::*;
use crate::error::MdsError;
use crate::text::{
    cat3, chars_of, find_char, has_prefix, is_ws, matches_at, same_text, starts_with, text_of, trim,
    trim_bounds, ws,
};

verus! {

// ── Import paths ───────────────────────────────────────────────────────────

/// An import path must be relative: it starts with `./` or `../`.
pub open spec fn is_relative(p: Seq<char>) -> bool {
    has_prefix(p, "./"@) || has_prefix(p, "../"@)
}

/// Why an import path is refused, if it is.
pub open spec fn import_path_error(p: Seq<char>) -> Option<Seq<char>> {
    if !is_relative(p) {
        Some("import path must be relative (start with './' or '../'): \""@ + p + "\""@)
    } else if p.contains('\0') {
        Some("import path contains null byte"@)
    } else {
        None
    }
}

/// An import path is accepted exactly when it starts with `./` or `../`
/// and holds no null byte.
pub proof fn law_import_paths(p: Seq<char>)
    ensures
        import_path_error(p) is None <==> ((has_prefix(p, seq!['.', '/']) || has_prefix(p, seq!['.', '.', '/']))
            && !p.contains('\0')),
{
    reveal_strlit("./");
    reveal_strlit("../");
    assert("./"@ =~= seq!['.', '/']);
    assert("../"@ =~= seq!['.', '.', '/']);
}

/// Validate that an import path is relative and holds no null byte.
pub fn validate_import_path(path: &str) -> (r: Result<(), MdsError>)
    ensures
        r is Ok <==> import_path_error(path@) is None,
        r matches Err(e) ==> e matches MdsError::ImportError { message, span: None }
            && Some(message@) == import_path_error(path@),
{
    proof {
        reveal_strlit("./");
        reveal_strlit("../");
    }
    let v = chars_of(path);
    if !starts_with(&v, "./") && !starts_with(&v, "../") {
        let m = cat3("import path must be relative (start with './' or '../'): \"", path, "\"");
        return Err(MdsError::import_error(m.as_str()));
    }
    let i = find_char(&v, 0, '\0');
    if i < v.len() {
        return Err(MdsError::import_error("import path contains null byte"));
    }
    assert(!path@.contains('\0'));
    Ok(())
}

// ── Lines ──────────────────────────────────────────────────────────────────

/// The index of the first newline at or after `i`, or `s.len()`.
pub open spec fn line_end(s: Seq<char>, i: int) -> int
    decreases s.len() - i,
{
    if i < 0 || i >= s.len() || s[i] == '\n' {
        if i < 0 { 0 } else { i }
    } else {
        line_end(s, i + 1)
    }
}

/// `i` is where one of the lines of `s` begins (as `str::lines` splits).
pub open spec fn is_line_start(s: Seq<char>, i: int) -> bool {
    0 <= i < s.len() && (i == 0 || s[i - 1] == '\n')
}

/// The line of `s` that begins at `i`, without its `\n` or `\r\n` ending.
pub open spec fn line_at(s: Seq<char>, i: int) -> Seq<char> {
    let e = line_end(s, i);
    if e < s.len() && e > i && s[e - 1] == '\r' {
        s.subrange(i, e - 1)
    } else {
        s.subrange(i, e)
    }
}

proof fn lemma_line_end(s: Seq<char>, i: int)
    requires
        0 <= i <= s.len(),
    ensures
        i <= line_end(s, i) <= s.len(),
        line_end(s, i) < s.len() ==> s[line_end(s, i)] == '\n',
        forall|j: int| i <= j < line_end(s, i) ==> s[j] != '\n',
    decreases s.len() - i,
{
    if i < s.len() && s[i] != '\n' {
        lemma_line_end(s, i + 1);
    }
}

proof fn lemma_line_end_is(s: Seq<char>, i: int, e: int)
    requires
        0 <= i <= e <= s.len(),
        e < s.len() ==> s[e] == '\n',
        forall|j: int| i <= j < e ==> s[j] != '\n',
    ensures
        line_end(s, i) == e,
    decreases e - i,
{
    if i < e {
        lemma_line_end_is(s, i + 1, e);
    }
}

// ── The `type: mds` marker ─────────────────────────────────────────────────

/// A frontmatter line that declares `type: mds` at the top level: it does not
/// begin with whitespace, begins with `type:`, and the rest, trimmed, is
/// `mds`, `"mds"` or `'mds'`.
pub open spec fn is_type_mds(line: Seq<char>) -> bool {
    &&& !(line.len() > 0 && is_ws(line[0]))
    &&& has_prefix(line, "type:"@)
    &&& {
        let v = trim(line.subrange(5, line.len() as int));
        v == "mds"@ || v == "\"mds\""@ || v == "'mds'"@
    }
}

/// `type:` followed by `mds`, `"mds"` or `'mds'`, with any whitespace
/// around the value, declares an MDS module.
pub proof fn law_type_mds_forms(w1: Seq<char>, v: Seq<char>, w2: Seq<char>)
    requires
        forall|k: int| 0 <= k < w1.len() ==> is_ws(#[trigger] w1[k]),
        forall|k: int| 0 <= k < w2.len() ==> is_ws(#[trigger] w2[k]),
        v == seq!['m', 'd', 's'] || v == seq!['"', 'm', 'd', 's', '"'] || v == seq!['\'', 'm', 'd', 's', '\''],
    ensures
        is_type_mds("type:"@ + w1 + v + w2),
{
    reveal_strlit("type:");
    reveal_strlit("mds");
    reveal_strlit("\"mds\"");
    reveal_strlit("'mds'");
    assert("mds"@ =~= seq!['m', 'd', 's']);
    assert("\"mds\""@ =~= seq!['"', 'm', 'd', 's', '"']);
    assert("'mds'"@ =~= seq!['\'', 'm', 'd', 's', '\'']);
    let line = "type:"@ + w1 + v + w2;
    assert(line[0] == 't');
    assert(line.subrange(0, 5) =~= "type:"@);
    let rest = line.subrange(5, line.len() as int);
    assert(rest =~= w1 + v + w2);
    assert(v.len() >= 3);
    assert(!is_ws(v[0]) && !is_ws(v[v.len() - 1]));
    assert forall|i: int| 0 <= i < w1.len() implies is_ws(#[trigger] rest[i]) by {
        assert(rest[i] == w1[i]);
    }
    assert(rest[w1.len() as int] == v[0]);
    crate::text::lemma_lead_ws_char(rest, w1.len());
    let t = rest.subrange(w1.len() as int, rest.len() as int);
    assert(t =~= v + w2);
    assert forall|i: int| t.len() - w2.len() <= i < t.len() implies is_ws(#[trigger] t[i]) by {
        assert(t[i] == w2[i - v.len()]);
    }
    assert(t[t.len() - w2.len() - 1] == v[v.len() - 1]);
    crate::text::lemma_trail_ws_char(t, w2.len());
    assert(t.subrange(0, t.len() - w2.len()) =~= v);
}

/// An indented `type:` line is not the marker (it belongs to a nested
/// mapping), and the marker's value is `mds`, `"mds"` or `'mds'` alone.
pub proof fn law_type_mds_top_level_only(line: Seq<char>)
    ensures
        line.len() > 0 && is_ws(line[0]) ==> !is_type_mds(line),
        is_type_mds(line) ==> has_prefix(line, "type:"@) && ({
            let v = trim(line.subrange(5, line.len() as int));
            v == seq!['m', 'd', 's'] || v == seq!['"', 'm', 'd', 's', '"'] || v == seq!['\'', 'm', 'd', 's', '\'']
        }),
{
    reveal_strlit("mds");
    reveal_strlit("\"mds\"");
    reveal_strlit("'mds'");
    assert("mds"@ =~= seq!['m', 'd', 's']);
    assert("\"mds\""@ =~= seq!['"', 'm', 'd', 's', '"']);
    assert("'mds'"@ =~= seq!['\'', 'm', 'd', 's', '\'']);
}

/// Some line of `s` declares `type: mds`.
pub open spec fn has_type_mds_line(s: Seq<char>) -> bool {
    exists|i: int| is_line_start(s, i) && is_type_mds(#[trigger] line_at(s, i))
}

fn type_mds_at(v: &Vec<char>, from: usize, to: usize) -> (b: bool)
    requires
        from <= to <= v@.len(),
    ensures
        b == is_type_mds(v@.subrange(from as int, to as int)),
{
    proof {
        reveal_strlit("type:");
        reveal_strlit("mds");
        reveal_strlit("\"mds\"");
        reveal_strlit("'mds'");
    }
    let ghost line = v@.subrange(from as int, to as int);
    if from < to && ws(v[from]) {
        assert(line[0] == v@[from as int]);
        return false;
    }
    let prefix = chars_of("type:");
    let at = matches_at(v, from, &prefix);
    if !at || to - from < 5 {
        proof {
            if has_prefix(line, "type:"@) {
                assert(line.subrange(0, 5) =~= v@.subrange(from as int, v@.len() as int).subrange(0, 5));
            }
        }
        return false;
    }
    assert(line.subrange(0, 5) =~= v@.subrange(from as int, v@.len() as int).subrange(0, 5));
    let (a, b) = trim_bounds(v, from + 5, to);
    assert(line.subrange(5, line.len() as int) =~= v@.subrange(from + 5, to as int));
    let mut w: Vec<char> = Vec::new();
    let mut k = a;
    while k < b
        invariant
            a <= k <= b <= v@.len(),
            w@ == v@.subrange(a as int, k as int),
        decreases b - k,
    {
        w.push(v[k]);
        k = k + 1;
        assert(w@ =~= v@.subrange(a as int, k as int));
    }
    same_text(&w, "mds") || same_text(&w, "\"mds\"") || same_text(&w, "'mds'")
}

/// `line` declares `type: mds` at the top level.
pub fn is_type_mds_line(line: &str) -> (b: bool)
    ensures
        b == is_type_mds(line@),
{
    let v = chars_of(line);
    assert(v@.subrange(0, v@.len() as int) =~= v@);
    type_mds_at(&v, 0, v.len())
}

fn any_type_mds_line(v: &Vec<char>, to: usize) -> (b: bool)
    requires
        to <= v@.len(),
    ensures
        b == has_type_mds_line(v@.subrange(0, to as int)),
{
    let ghost s = v@.subrange(0, to as int);
    let mut pos: usize = 0;
    while pos < to
        invariant
            to <= v@.len(),
            s == v@.subrange(0, to as int),
            pos <= to,
            pos < to ==> (pos == 0 || s[pos - 1] == '\n'),
            forall|i: int| 0 <= i < pos && is_line_start(s, i) ==> !is_type_mds(#[trigger] line_at(s, i)),
        decreases to - pos,
    {
        let mut e = pos;
        while e < to && v[e] != '\n'
            invariant
                pos <= e <= to <= v@.len(),
                forall|j: int| pos <= j < e ==> v@[j] != '\n',
            decreases to - e,
        {
            e = e + 1;
        }
        proof {
            assert forall|j: int| pos <= j < e implies s[j] != '\n' by {
                assert(s[j] == v@[j]);
            }
            if e < to {
                assert(s[e as int] == v@[e as int]);
            }
            lemma_line_end_is(s, pos as int, e as int);
        }
        let stop = if e < to && e > pos && v[e - 1] == '\r' { e - 1 } else { e };
        proof {
            if e < to && e > pos {
                assert(s[e - 1] == v@[e - 1]);
            }
            assert(line_at(s, pos as int) =~= v@.subrange(pos as int, stop as int));
            assert(is_line_start(s, pos as int));
        }
        if type_mds_at(v, pos, stop) {
            assert(is_type_mds(line_at(s, pos as int)));
            return true;
        }
        proof {
            assert forall|i: int| 0 <= i < e + 1 && i < to && is_line_start(s, i) implies !is_type_mds(#[trigger] line_at(s, i)) by {
                if pos < i <= e {
                    assert(s[i - 1] == v@[i - 1]);
                }
            }
        }
        pos = if e >= to { to } else { e + 1 };
    }
    false
}

/// Raw frontmatter (without fences) holds a top-level `type: mds` line.
pub fn has_type_mds_frontmatter_raw(raw: &str) -> (b: bool)
    ensures
        b == has_type_mds_line(raw@),
{
    let v = chars_of(raw);
    assert(v@.subrange(0, v@.len() as int) =~= v@);
    any_type_mds_line(&v, v.len())
}

/// `pat` occurs in `s` at position `i`.
pub open spec fn occurs_at(s: Seq<char>, pat: Seq<char>, i: int) -> bool {
    0 <= i && i + pat.len() <= s.len() && s.subrange(i, i + pat.len()) == pat
}

/// The first position at or after `from` where `pat` occurs in `s`.
pub open spec fn first_occurrence(s: Seq<char>, pat: Seq<char>, from: int) -> Option<int> {
    if exists|i: int| from <= i && #[trigger] occurs_at(s, pat, i) {
        Some(choose|i: int|
            from <= i && #[trigger] occurs_at(s, pat, i)
                && forall|j: int| from <= j < i ==> !occurs_at(s, pat, j))
    } else {
        None
    }
}

/// The frontmatter block of a whole source: after an opening `---\n` (or
/// `---\r\n`) fence, the text up to the first `\n---`.
pub open spec fn frontmatter_block(src: Seq<char>) -> Option<Seq<char>> {
    let start: int = if has_prefix(src, "---\n"@) {
        4
    } else if has_prefix(src, "---\r\n"@) {
        5
    } else {
        -1
    };
    if start < 0 {
        None
    } else {
        match first_occurrence(src, "\n---"@, start) {
            Some(end) => Some(src.subrange(start, end)),
            None => None,
        }
    }
}

/// A whole source has a frontmatter block with a top-level `type: mds` line.
pub fn has_type_mds_frontmatter(source: &str) -> (b: bool)
    ensures
        b == (frontmatter_block(source@) matches Some(fm) && has_type_mds_line(fm)),
{
    proof {
        reveal_strlit("---\n");
        reveal_strlit("---\r\n");
        reveal_strlit("\n---");
    }
    let v = chars_of(source);
    let start: usize = if starts_with(&v, "---\n") {
        4
    } else if starts_with(&v, "---\r\n") {
        5
    } else {
        return false;
    };
    let pat = chars_of("\n---");
    let mut i = start;
    let n = v.len();
    while i < n && n - i >= 4
        invariant
            pat@ == "\n---"@,
            pat@.len() == 4,
            start as int == (if has_prefix(v@, "---\n"@) { 4int } else if has_prefix(v@, "---\r\n"@) { 5int } else { -1int }),
            v@ == source@,
            n == v@.len(),
            start <= i,
            start <= n,
            forall|j: int| start <= j < i ==> !occurs_at(v@, pat@, j),
        decreases n - i,
    {
        if matches_at(&v, i, &pat) {
            proof {
                assert(v@.subrange(i as int, i + 4) =~= v@.subrange(i as int, n as int).subrange(0, 4));
                assert(occurs_at(v@, pat@, i as int));
                let c = choose|c: int|
                    start <= c && #[trigger] occurs_at(v@, pat@, c)
                        && forall|j: int| start <= j < c ==> !occurs_at(v@, pat@, j);
                assert(c == i);
            }
            let r = any_type_mds_sub(&v, start, i);
            return r;
        }
        proof {
            assert(v@.subrange(i as int, i + 4) =~= v@.subrange(i as int, n as int).subrange(0, 4));
        }
        i = i + 1;
    }
    proof {
        assert forall|j: int| start <= j implies !#[trigger] occurs_at(v@, pat@, j) by {}
    }
    false
}

fn any_type_mds_sub(v: &Vec<char>, from: usize, to: usize) -> (b: bool)
    requires
        from <= to <= v@.len(),
    ensures
        b == has_type_mds_line(v@.subrange(from as int, to as int)),
{
    let mut w: Vec<char> = Vec::new();
    let mut k = from;
    while k < to
        invariant
            from <= k <= to <= v@.len(),
            w@ == v@.subrange(from as int, k as int),
        decreases to - k,
    {
        w.push(v[k]);
        k = k + 1;
        assert(w@ =~= v@.subrange(from as int, k as int));
    }
    assert(w@.subrange(0, w@.len() as int) =~= w@);
    any_type_mds_line(&w, w.len())
}

// ── Module keys ────────────────────────────────────────────────────────────

/// A path separator: `/` or `\`.
pub open spec fn is_sep(c: char) -> bool {
    c == '/' || c == '\\'
}

/// Index just after the last separator of `s`, or 0.
pub open spec fn last_component_start(s: Seq<char>) -> int
    decreases s.len(),
{
    if s.len() == 0 {
        0
    } else if is_sep(s.last()) {
        s.len() as int
    } else {
        last_component_start(s.drop_last())
    }
}

/// The last path component of a key: the text after its last `/` or `\`.
pub open spec fn display_name(key: Seq<char>) -> Seq<char> {
    key.subrange(last_component_start(key), key.len() as int)
}

pub proof fn lemma_last_component(s: Seq<char>)
    ensures
        0 <= last_component_start(s) <= s.len(),
        forall|j: int| last_component_start(s) <= j < s.len() ==> !is_sep(#[trigger] s[j]),
        last_component_start(s) > 0 ==> is_sep(s[last_component_start(s) - 1]),
    decreases s.len(),
{
    if s.len() > 0 && !is_sep(s.last()) {
        lemma_last_component(s.drop_last());
        assert forall|j: int| last_component_start(s) <= j < s.len() implies !is_sep(#[trigger] s[j]) by {
            if j < s.len() - 1 {
                assert(s[j] == s.drop_last()[j]);
            }
        }
        if last_component_start(s) > 0 {
            assert(s[last_component_start(s) - 1] == s.drop_last()[last_component_start(s) - 1]);
        }
    }
}

proof fn lemma_last_component_is(s: Seq<char>, k: int)
    requires
        0 <= k <= s.len(),
        forall|j: int| k <= j < s.len() ==> !is_sep(#[trigger] s[j]),
        k > 0 ==> is_sep(s[k - 1]),
    ensures
        last_component_start(s) == k,
    decreases s.len(),
{
    if s.len() > k {
        let t = s.drop_last();
        assert forall|j: int| k <= j < t.len() implies !is_sep(#[trigger] t[j]) by {
            assert(t[j] == s[j]);
        }
        if k > 0 {
            assert(t[k - 1] == s[k - 1]);
        }
        assert(!is_sep(s[s.len() - 1]));
        lemma_last_component_is(t, k);
    }
}


/// Where the last component of `v[..]` begins.
pub fn component_start(v: &Vec<char>) -> (k: usize)
    ensures
        k == last_component_start(v@),
{
    let mut k = v.len();
    while k > 0 && v[k - 1] != '/' && v[k - 1] != '\\'
        invariant
            k <= v@.len(),
            forall|j: int| k <= j < v@.len() ==> !is_sep(#[trigger] v@[j]),
        decreases k,
    {
        k = k - 1;
    }
    proof {
        lemma_last_component_is(v@, k as int);
    }
    k
}

/// A short display name for a module key: its last path component.
pub fn key_display_name(key: &str) -> (r: String)
    ensures
        r@ == display_name(key@),
{
    let v = chars_of(key);
    let k = component_start(&v);
    proof {
        lemma_last_component(v@);
    }
    text_of(&v, k, v.len())
}

/// The extension of a key's file name: the text after the last `.` of the
/// last component, when that component has one that is not its first
/// character followed by no other `.` (a dotfile such as `.mds` has none).
pub open spec fn extension(key: Seq<char>) -> Option<Seq<char>> {
    let f = display_name(key);
    if f.len() > 0 && f[0] == '.' && !f.subrange(1, f.len() as int).contains('.') {
        None
    } else if f.contains('.') {
        Some(f.subrange(last_dot(f) + 1, f.len() as int))
    } else {
        None
    }
}

/// The index of the last `.` of `f` (or -1).
pub open spec fn last_dot(f: Seq<char>) -> int
    decreases f.len(),
{
    if f.len() == 0 {
        -1
    } else if f.last() == '.' {
        f.len() - 1
    } else {
        last_dot(f.drop_last())
    }
}

proof fn lemma_last_dot(f: Seq<char>)
    ensures
        -1 <= last_dot(f) < f.len(),
        last_dot(f) >= 0 ==> f[last_dot(f)] == '.',
        forall|j: int| last_dot(f) < j < f.len() ==> f[j] != '.',
        f.contains('.') <==> last_dot(f) >= 0,
    decreases f.len(),
{
    if f.len() > 0 && f.last() != '.' {
        lemma_last_dot(f.drop_last());
        assert forall|j: int| last_dot(f) < j < f.len() implies f[j] != '.' by {
            if j < f.len() - 1 {
                assert(f[j] == f.drop_last()[j]);
            }
        }
        if last_dot(f) >= 0 {
            assert(f[last_dot(f)] == f.drop_last()[last_dot(f)]);
        }
        if f.contains('.') {
            let j = choose|j: int| 0 <= j < f.len() && f[j] == '.';
            assert(f.drop_last()[j] == '.');
        }
        if last_dot(f) >= 0 {
            assert(f[last_dot(f)] == '.');
        }
    } else if f.len() > 0 {
        assert(f[f.len() - 1] == '.');
    }
}

/// A `.md` file whose frontmatter is the single line `type:` followed by
/// `mds`, `"mds"` or `'mds'` (whitespace around the value allowed) is an
/// MDS module, whatever follows the frontmatter.
pub proof fn law_md_type_mds_module(key: Seq<char>, w1: Seq<char>, v: Seq<char>, w2: Seq<char>, rest: Seq<char>)
    requires
        extension(key) == Some("md"@),
        forall|k: int| 0 <= k < w1.len() ==> is_ws(#[trigger] w1[k]) && w1[k] != '\n',
        forall|k: int| 0 <= k < w2.len() ==> is_ws(#[trigger] w2[k]) && w2[k] != '\n',
        v == seq!['m', 'd', 's'] || v == seq!['"', 'm', 'd', 's', '"'] || v == seq!['\'', 'm', 'd', 's', '\''],
    ensures
        is_mds_module(key, "---\n"@ + ("type:"@ + w1 + v + w2) + "\n---"@ + rest),
{
    reveal_strlit("---\n");
    reveal_strlit("\n---");
    reveal_strlit("type:");
    reveal_strlit("mds");
    reveal_strlit("\"mds\""); 
    reveal_strlit("'mds'");
    let line = "type:"@ + w1 + v + w2;
    let src = "---\n"@ + line + "\n---"@ + rest;
    let p: int = 4 + line.len() as int;
    law_type_mds_forms(w1, v, w2);
    assert forall|j: int| 0 <= j < line.len() implies line[j] != '\n' by {
        if j >= 5 + w1.len() + v.len() {
            assert(line[j] == w2[j - 5 - w1.len() - v.len()]);
        } else if j >= 5 + w1.len() {
            assert(line[j] == v[j - 5 - w1.len()]);
        } else if j >= 5 {
            assert(line[j] == w1[j - 5]);
        }
    }
    assert(src.subrange(0, 4) =~= "---\n"@);
    assert(has_prefix(src, "---\n"@));
    assert(src.subrange(p, p + 4) =~= "\n---"@);
    assert(occurs_at(src, "\n---"@, p));
    assert forall|j: int| 4 <= j < p implies !occurs_at(src, "\n---"@, j) by {
        assert(src[j] == line[j - 4]);
        if occurs_at(src, "\n---"@, j) {
            assert(src.subrange(j, j + 4)[0] == src[j]);
        }
    }
    let f = choose|i: int| 4 <= i && #[trigger] occurs_at(src, "\n---"@, i)
        && forall|j: int| 4 <= j < i ==> !occurs_at(src, "\n---"@, j);
    assert(f == p);
    assert(first_occurrence(src, "\n---"@, 4) == Some(p));
    assert(src.subrange(4, p) =~= line);
    assert(frontmatter_block(src) == Some(line));
    lemma_line_end_is(line, 0, line.len() as int);
    assert(line.subrange(0, line.len() as int) =~= line);
    assert(line_at(line, 0) == line);
    assert(is_line_start(line, 0));
    assert(has_type_mds_line(line));
}

/// A key's file name is what follows its last `/` or `\`, and its
/// extension is what follows the last `.` of that name: a key
/// `dir` + separator + `name` + `.` + `ext`, with a non-empty name and an
/// extension holding no `.`, has the extension `ext`.
pub proof fn law_key_extension(dir: Seq<char>, sep: char, name: Seq<char>, ext: Seq<char>)
    requires
        sep == '/' || sep == '\\',
        name.len() > 0,
        forall|j: int| 0 <= j < name.len() ==> !is_sep(#[trigger] name[j]),
        forall|j: int| 0 <= j < ext.len() ==> !is_sep(#[trigger] ext[j]) && ext[j] != '.',
    ensures
        display_name(dir.push(sep) + name + seq!['.'] + ext) == name + seq!['.'] + ext,
        extension(dir.push(sep) + name + seq!['.'] + ext) == Some(ext),
{
    let f = name + seq!['.'] + ext;
    let key = dir.push(sep) + f;
    assert(key =~= dir.push(sep) + name + seq!['.'] + ext);
    let k: int = dir.len() as int + 1;
    assert forall|j: int| k <= j < key.len() implies !is_sep(#[trigger] key[j]) by {
        assert(key[j] == f[j - k]);
        if j - k < name.len() {
            assert(f[j - k] == name[j - k]);
        } else if j - k > name.len() {
            assert(f[j - k] == ext[j - k - name.len() - 1]);
        }
    }
    assert(key[k - 1] == sep);
    lemma_last_component_is(key, k);
    assert(key.subrange(k, key.len() as int) =~= f);
    lemma_last_dot(f);
    assert(f[name.len() as int] == '.');
    assert(f.contains('.'));
    assert forall|j: int| name.len() < j < f.len() implies f[j] != '.' by {
        assert(f[j] == ext[j - name.len() - 1]);
    }
    assert(last_dot(f) == name.len());
    assert(f.subrange(name.len() as int + 1, f.len() as int) =~= ext);
    if f[0] == '.' {
        assert(f.subrange(1, f.len() as int).contains('.')) by {
            if name.len() >= 1 {
                assert(f.subrange(1, f.len() as int)[name.len() - 1] == '.');
            }
        }
    }
}

/// Why a module may not be compiled, if it may not: its key must name a
/// `.mds` file, or a `.md` file whose frontmatter declares `type: mds`.
pub open spec fn is_mds_module(key: Seq<char>, source: Seq<char>) -> bool {
    extension(key) == Some("mds"@)
        || (extension(key) == Some("md"@) && (frontmatter_block(source) matches Some(fm)
            && has_type_mds_line(fm)))
}

pub fn extension_of(key: &str) -> (r: Option<Vec<char>>)
    ensures
        r matches Some(e) ==> extension(key@) == Some(e@),
        r is None ==> extension(key@) is None,
{
    let v = chars_of(key);
    let k = component_start(&v);
    proof {
        lemma_last_component(v@);
    }
    let ghost f = display_name(key@);
    assert(f =~= v@.subrange(k as int, v@.len() as int));
    let n = v.len();
    let mut j = n;
    while j > k && v[j - 1] != '.'
        invariant
            k <= j <= n == v@.len(),
            forall|t: int| j <= t < n ==> v@[t] != '.',
        decreases j,
    {
        j = j - 1;
    }
    let d = if j > k { j - 1 } else { n };
    proof {
        lemma_last_dot(f);
    }
    if d == n {
        proof {
            assert forall|t: int| 0 <= t < f.len() implies f[t] != '.' by {
                assert(f[t] == v@[k + t]);
            }
            assert(!f.contains('.'));
        }
        return None;
    }
    proof {
        assert(v@[d as int] == '.');
        assert(f[d - k] == '.');
        assert forall|t: int| d - k < t < f.len() implies f[t] != '.' by {
            assert(f[t] == v@[k + t]);
        }
        assert(f.contains('.'));
        if last_dot(f) > d - k {
            assert(f[last_dot(f)] == v@[k + last_dot(f)]);
        }
        assert(last_dot(f) == d - k);
    }
    if d == k {
        // the only dot is the component's first character
        proof {
            assert forall|t: int| 0 <= t < f.len() - 1 implies f.subrange(1, f.len() as int)[t] != '.' by {
                assert(f.subrange(1, f.len() as int)[t] == f[t + 1]);
            }
        }
        return None;
    }
    proof {
        if f[0] == '.' {
            assert(f.subrange(1, f.len() as int)[d - k - 1] == f[d - k]);
        }
        assert(f.subrange(d - k + 1, f.len() as int) =~= v@.subrange(d + 1, n as int));
    }
    let mut e: Vec<char> = Vec::new();
    let mut t = d + 1;
    while t < n
        invariant
            d + 1 <= t <= n == v@.len(),
            e@ == v@.subrange(d + 1, t as int),
        decreases n - t,
    {
        e.push(v[t]);
        t = t + 1;
        assert(e@ =~= v@.subrange(d + 1, t as int));
    }
    Some(e)
}

/// Accept a module whose key names a `.mds` file, or a `.md` file whose
/// frontmatter declares `type: mds`.
pub fn validate_file_type(key: &str, source: &str) -> (r: Result<(), MdsError>)
    ensures
        r is Ok <==> is_mds_module(key@, source@),
        r matches Err(e) ==> e matches MdsError::NotMdsFile { path } && path@ == key@,
{
    let ext = extension_of(key);
    match ext {
        Some(e) => {
            if same_text(&e, "mds") {
                return Ok(());
            }
            if same_text(&e, "md") && has_type_mds_frontmatter(source) {
                return Ok(());
            }
            proof {
                reveal_strlit("mds");
                reveal_strlit("md");
            }
            Err(MdsError::not_mds_file(key))
        },
        None => Err(MdsError::not_mds_file(key)),
    }
}

} // verus!
