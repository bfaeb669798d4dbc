//! Where module sources come from: the [`FileSystem`] interface and the
//! in-memory [`VirtualFs`].

use vstd::prelude::*;
use crate::error::MdsError;
use crate::paths::{extension, extension_of, is_sep, last_component_start};
use crate::table::Table;
use crate::text::{cat3, chars_of, same_text, text_of};

verus! {

/// A source of modules, addressed by normalized keys.
pub trait FileSystem {
    /// The key of `relative` as imported from the module at `base_key`,
    /// where the file system knows it ahead of asking; by default nothing is
    /// known.
    open spec fn known_key(&self, base_key: Seq<char>, relative: Seq<char>) -> Option<Seq<char>> {
        None
    }

    /// The key of `relative` as imported from the module at `base_key`
    /// (`""` for the entry point): the known key, where there is one.
    fn normalize(&self, base_key: &str, relative: &str) -> (r: Result<String, MdsError>)
        ensures
            self.known_key(base_key@, relative@) matches Some(k) ==> (r matches Ok(s) && s@ == k);

    /// The text of the module at `key`, where the file system knows it
    /// ahead of any read; by default nothing is known.
    open spec fn known_text(&self, key: Seq<char>) -> Option<Seq<char>> {
        None
    }

    /// The source text of the module at `key`: the known text, where there
    /// is one.
    fn read(&self, key: &str) -> (r: Result<String, MdsError>)
        ensures
            self.known_text(key@) matches Some(t) ==> (r matches Ok(s) && s@ == t);

    /// Whether the module at `key` is a Markdown file, where the file
    /// system knows it ahead of asking; by default nothing is known.
    open spec fn known_markdown(&self, key: Seq<char>) -> Option<bool> {
        None
    }

    /// The module at `key` is a Markdown file: as known, where it is.
    fn is_markdown(&self, key: &str) -> (r: bool)
        ensures
            self.known_markdown(key@) matches Some(b) ==> r == b;

    /// The canonical form of a directory.
    fn canonicalize(&self, dir: &str) -> Result<String, MdsError>;

    /// Make `root` the directory that keys are resolved under.
    fn set_root(&mut self, root: &str) -> Result<(), MdsError>;
}

/// The pieces of `s` between path separators (`/` or `\`), in order; one
/// more than there are separators.
pub open spec fn pieces(s: Seq<char>) -> Seq<Seq<char>>
    decreases s.len(),
{
    if s.len() == 0 {
        seq![Seq::empty()]
    } else {
        let p = pieces(s.drop_last());
        if is_sep(s.last()) {
            p.push(Seq::empty())
        } else {
            p.update(p.len() - 1, p.last().push(s.last()))
        }
    }
}

/// The segments left after walking `ps`: empty pieces and `.` are dropped,
/// `..` removes the last segment; `None` when a `..` has none to remove.
pub open spec fn resolved_segments(ps: Seq<Seq<char>>) -> Option<Seq<Seq<char>>>
    decreases ps.len(),
{
    if ps.len() == 0 {
        Some(Seq::empty())
    } else {
        match resolved_segments(ps.drop_last()) {
            None => None,
            Some(acc) => {
                let p = ps.last();
                if p.len() == 0 || p == "."@ {
                    Some(acc)
                } else if p == ".."@ {
                    if acc.len() == 0 {
                        None
                    } else {
                        Some(acc.drop_last())
                    }
                } else {
                    Some(acc.push(p))
                }
            },
        }
    }
}

/// The path `relative` names from the module at `base`: the directory of
/// `base` (up to its last separator) followed by `relative`.
pub open spec fn joined_path(base: Seq<char>, relative: Seq<char>) -> Seq<char> {
    base.subrange(0, last_component_start(base)) + relative
}

/// `parts` joined with `/`.
pub open spec fn slash_joined(parts: Seq<Seq<char>>) -> Seq<char>
    decreases parts.len(),
{
    if parts.len() == 0 {
        Seq::empty()
    } else if parts.len() == 1 {
        parts[0]
    } else {
        slash_joined(parts.drop_last()) + "/"@ + parts.last()
    }
}

/// The key a virtual file system gives `relative` imported from `base`:
/// the segments of the joined path, after `.` and `..`, joined with `/`
/// (with a leading `/` when the joined path has one); `None` when a `..`
/// climbs above the root.
pub open spec fn normalized(base: Seq<char>, relative: Seq<char>) -> Option<Seq<char>> {
    let all = joined_path(base, relative);
    match resolved_segments(pieces(all)) {
        None => None,
        Some(segs) => Some((if all.len() > 0 && all[0] == '/' { "/"@ } else { Seq::empty() }) + slash_joined(segs)),
    }
}

/// The pieces of a prefix of `s`, but for the last (still growing), are
/// the first pieces of `s`.
proof fn lemma_pieces_prefix(s: Seq<char>, k: int)
    requires
        0 <= k <= s.len(),
    ensures
        pieces(s).len() >= pieces(s.subrange(0, k)).len() >= 1,
        forall|i: int| 0 <= i < pieces(s.subrange(0, k)).len() - 1 ==> #[trigger] pieces(s)[i] == pieces(s.subrange(0, k))[i],
    decreases s.len(),
{
    lemma_pieces_nonempty(s);
    if k == s.len() {
        assert(s.subrange(0, k) =~= s);
    } else {
        let t = s.drop_last();
        assert(t.subrange(0, k) =~= s.subrange(0, k));
        lemma_pieces_prefix(t, k);
        lemma_pieces_nonempty(t);
    }
}

proof fn lemma_pieces_nonempty(s: Seq<char>)
    ensures
        pieces(s).len() >= 1,
    decreases s.len(),
{
    if s.len() > 0 {
        lemma_pieces_nonempty(s.drop_last());
    }
}

proof fn lemma_resolved_none(ps: Seq<Seq<char>>, n: int)
    requires
        0 <= n <= ps.len(),
        resolved_segments(ps.subrange(0, n)) is None,
    ensures
        resolved_segments(ps) is None,
    decreases ps.len() - n,
{
    if n < ps.len() {
        assert(ps.subrange(0, n + 1).drop_last() =~= ps.subrange(0, n));
        lemma_resolved_none(ps, n + 1);
    } else {
        assert(ps.subrange(0, n) =~= ps);
    }
}

/// An in-memory file system: module keys mapped to sources.
#[derive(Debug)]
pub struct VirtualFs {
    pub files: Table<String>,
}

/// A Markdown key: its extension is `md`.
pub open spec fn is_markdown_key(key: Seq<char>) -> bool {
    extension(key) == Some("md"@)
}

fn markdown_key(key: &str) -> (b: bool)
    ensures
        b == is_markdown_key(key@),
{
    proof {
        reveal_strlit("md");
    }
    match extension_of(key) {
        Some(e) => same_text(&e, "md"),
        None => false,
    }
}

impl VirtualFs {
    pub fn new(files: Table<String>) -> (fs: VirtualFs)
        ensures
            fs.files == files,
    {
        VirtualFs { files }
    }
}

impl FileSystem for VirtualFs {
    /// The key [`normalized`] gives, where it gives one.
    open spec fn known_key(&self, base_key: Seq<char>, relative: Seq<char>) -> Option<Seq<char>> {
        normalized(base_key, relative)
    }

    /// A key names a Markdown file by its extension.
    open spec fn known_markdown(&self, key: Seq<char>) -> Option<bool> {
        Some(is_markdown_key(key))
    }

    /// The text stored under `key`.
    open spec fn known_text(&self, key: Seq<char>) -> Option<Seq<char>> {
        match self.files.lookup(key) {
            Some(s) => Some(s@),
            None => None,
        }
    }

    /// Joins `relative` to the directory of `base_key`, dropping `.`
    /// segments and resolving `..` segments; a `..` above the root is
    /// refused.
    fn normalize(&self, base_key: &str, relative: &str) -> (r: Result<String, MdsError>)
        ensures
            match normalized(base_key@, relative@) {
                None => r matches Err(MdsError::ImportError { message, span: None })
                    && message@ == "import path escapes the module root: \""@ + relative@ + "\""@,
                Some(k) => r matches Ok(s) && s@ == k,
            },
    {
        let b = chars_of(base_key);
        let rel = chars_of(relative);
        let d = crate::paths::component_start(&b);
        proof {
            crate::paths::lemma_last_component(b@);
        }
        let mut all: Vec<char> = Vec::new();
        let mut i: usize = 0;
        while i < d
            invariant
                i <= d <= b@.len(),
                all@ == b@.subrange(0, i as int),
            decreases d - i,
        {
            all.push(b[i]);
            i = i + 1;
            assert(all@ =~= b@.subrange(0, i as int));
        }
        let mut j: usize = 0;
        while j < rel.len()
            invariant
                j <= rel@.len(),
                d <= b@.len(),
                all@ == b@.subrange(0, d as int) + rel@.subrange(0, j as int),
            decreases rel@.len() - j,
        {
            all.push(rel[j]);
            j = j + 1;
            assert(all@ =~= b@.subrange(0, d as int) + rel@.subrange(0, j as int));
        }
        assert(rel@.subrange(0, rel@.len() as int) =~= rel@);
        assert(all@ == joined_path(base_key@, relative@));
        let absolute = all.len() > 0 && all[0] == '/';
        let mut segments: Vec<String> = Vec::new();
        let ghost mut done: Seq<Seq<char>> = Seq::empty();
        let mut start: usize = 0;
        let mut k: usize = 0;
        let n = all.len();
        assert(all@.subrange(0, 0) =~= Seq::<char>::empty());
        assert(pieces(Seq::<char>::empty()) == done.push(all@.subrange(0, 0)));
        loop
            invariant_except_break
                pieces(all@.subrange(0, k as int)) == done.push(all@.subrange(start as int, k as int)),
                resolved_segments(done) == Some(segments@.map_values(|x: String| x@)),
            invariant
                start <= k <= n,
                n == all@.len(),
                all@ == joined_path(base_key@, relative@),
            ensures
                resolved_segments(pieces(all@)) == Some(segments@.map_values(|x: String| x@)),
            decreases n - k,
        {
            if k == n || all[k] == '/' || all[k] == '\\' {
                let seg = text_of(&all, start, k);
                let piece = all_slice(&all, start, k);
                let ghost next = done.push(piece@);
                proof {
                    lemma_pieces_prefix(all@, k as int);
                    assert(next.drop_last() =~= done);
                }
                if k == start || same_text(&piece, ".") {
                } else if same_text(&piece, "..") {
                    if segments.len() == 0 {
                        proof {
                            let ps = pieces(all@);
                            if k == n {
                                assert(all@.subrange(0, n as int) =~= all@);
                                assert(ps.subrange(0, next.len() as int) =~= next);
                            } else {
                                lemma_pieces_prefix(all@, k + 1);
                                assert(all@.subrange(0, k + 1).drop_last() =~= all@.subrange(0, k as int));
                                assert(ps.subrange(0, next.len() as int) =~= next);
                            }
                            lemma_resolved_none(ps, next.len() as int);
                        }
                        let m = cat3("import path escapes the module root: \"", relative, "\"");
                        return Err(MdsError::import_error(m.as_str()));
                    }
                    let ghost before = segments@;
                    segments.pop();
                    assert(segments@.map_values(|x: String| x@) =~= before.map_values(|x: String| x@).drop_last());
                } else {
                    let ghost before = segments@;
                    segments.push(seg);
                    assert(segments@.map_values(|x: String| x@) =~= before.map_values(|x: String| x@).push(piece@));
                }
                proof {
                    done = next;
                }
                if k == n {
                    assert(all@.subrange(0, n as int) =~= all@);
                    break;
                }
                proof {
                    assert(all@.subrange(0, k + 1).drop_last() =~= all@.subrange(0, k as int));
                    assert(all@.subrange(k + 1, k + 1) =~= Seq::<char>::empty());
                }
                start = k + 1;
            } else {
                proof {
                    assert(all@.subrange(0, k + 1).drop_last() =~= all@.subrange(0, k as int));
                    assert(all@.subrange(start as int, k + 1) =~= all@.subrange(start as int, k as int).push(all@[k as int]));
                }
            }
            k = k + 1;
        }
        assert(all@.subrange(0, n as int) =~= all@);
        let ghost segs = segments@.map_values(|x: String| x@);
        let mut out = if absolute { "/".to_owned() } else { String::new() };
        let ghost head = out@;
        let mut t: usize = 0;
        while t < segments.len()
            invariant
                t <= segments@.len(),
                segs == segments@.map_values(|x: String| x@),
                out@ == head + slash_joined(segs.subrange(0, t as int)),
            decreases segments@.len() - t,
        {
            if t > 0 {
                out.append("/");
            }
            out.append(segments[t].as_str());
            proof {
                let q = segs.subrange(0, t + 1);
                assert(q.drop_last() =~= segs.subrange(0, t as int));
                assert(q.last() == segments@[t as int]@);
                if t == 0 {
                    assert(out@ =~= head + slash_joined(q));
                } else {
                    assert(out@ =~= head + slash_joined(q));
                }
            }
            t = t + 1;
        }
        assert(segs.subrange(0, segs.len() as int) =~= segs);
        Ok(out)
    }

    fn read(&self, key: &str) -> (r: Result<String, MdsError>)
        ensures
            self.files.has(key@) ==> (r matches Ok(s) && Some(s) == self.files.lookup(key@)),
            !self.files.has(key@) ==> (r matches Err(MdsError::FileNotFound { path, span: None }) && path@ == key@),
    {
        match self.files.get(key) {
            Some(s) => Ok(s.clone()),
            None => Err(MdsError::file_not_found(key)),
        }
    }

    fn is_markdown(&self, key: &str) -> (b: bool)
        ensures
            b == is_markdown_key(key@),
    {
        markdown_key(key)
    }

    fn canonicalize(&self, dir: &str) -> (r: Result<String, MdsError>)
        ensures
            r matches Ok(s) && s@ == dir@,
    {
        Ok(dir.to_owned())
    }

    fn set_root(&mut self, root: &str) -> (r: Result<(), MdsError>)
        ensures
            r is Ok,
            final(self).files == old(self).files,
    {
        Ok(())
    }
}

fn all_slice(v: &Vec<char>, from: usize, to: usize) -> (r: Vec<char>)
    requires
        from <= to <= v@.len(),
    ensures
        r@ == v@.subrange(from as int, to as int),
{
    let mut r: Vec<char> = Vec::new();
    let mut i = from;
    while i < to
        invariant
            from <= i <= to <= v@.len(),
            r@ == v@.subrange(from as int, i as int),
        decreases to - i,
    {
        r.push(v[i]);
        i = i + 1;
        assert(r@ =~= v@.subrange(from as int, i as int));
    }
    r
}

} // verus!
