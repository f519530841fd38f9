//! Paths as text, by the rules of Unix: components are parted by `/`, a repeated or trailing
//! `/` counts for nothing, and neither does a `.` that is not the first component.

use crate::text::{
    chars_of, decimal, decimal_text, find_char, find_last_char, first_at, join2, join3, last_at,
    lemma_first_at, lemma_first_at_skip, str_eq, text_of, texts,
};
use vstd::prelude::*;

verus! {

/// Whether a path starts at the root.
pub open spec fn is_absolute_path(p: Seq<char>) -> bool {
    p.len() > 0 && p[0] == '/'
}

/// `p` without what counts for nothing at its end.
pub open spec fn trimmed_path(p: Seq<char>) -> Seq<char>
    decreases p.len(),
{
    if p.len() >= 2 && (p.last() == '/' || (p.last() == '.' && p[p.len() - 2] == '/')) {
        trimmed_path(p.drop_last())
    } else {
        p
    }
}

/// The path without its last component; none for the root and for the empty path.
pub open spec fn parent_path(p: Seq<char>) -> Option<Seq<char>> {
    let t = trimmed_path(p);
    if t.len() == 0 || t == seq!['/'] {
        None
    } else {
        match last_at(t, '/') {
            Some(i) => Some(trimmed_path(t.take(i + 1))),
            None => Some(Seq::empty()),
        }
    }
}

/// The last component of a path, where it names a file or a directory.
pub open spec fn file_name(p: Seq<char>) -> Option<Seq<char>> {
    let t = trimmed_path(p);
    let last = match last_at(t, '/') {
        Some(i) => t.skip(i + 1),
        None => t,
    };
    if last.len() == 0 || last == seq!['.'] || last == seq!['.', '.'] {
        None
    } else {
        Some(last)
    }
}

/// `p` seen from `base`: an absolute path stands for itself.
pub open spec fn joined_path(base: Seq<char>, p: Seq<char>) -> Seq<char> {
    if is_absolute_path(p) {
        p
    } else if base.len() == 0 || base.last() == '/' {
        base + p
    } else {
        base + seq!['/'] + p
    }
}

/// The directory that a manifest's relative paths are seen from: the one that holds it.
pub open spec fn base_dir_path(manifest_path: Seq<char>) -> Seq<char> {
    match parent_path(manifest_path) {
        Some(dir) => if dir.len() == 0 {
            "."@
        } else {
            dir
        },
        None => "."@,
    }
}

/// `p` with another last component; a path that names no file gets one more component.
pub open spec fn renamed_path(p: Seq<char>, name: Seq<char>) -> Seq<char> {
    match (file_name(p), parent_path(p)) {
        (Some(_), Some(dir)) => joined_path(dir, name),
        _ => joined_path(p, name),
    }
}

/// Where a file is written before it takes the place of `p`.
pub open spec fn temp_path(p: Seq<char>, pid: nat) -> Seq<char> {
    let name = match file_name(p) {
        Some(n) => n,
        None => "artzain"@,
    };
    renamed_path(p, name + "."@ + decimal_text(pid) + ".tmp"@)
}

/// A path of the control-plane directory that stands beside the manifest.
pub open spec fn control_path(base_dir: Seq<char>, name: Seq<char>) -> Seq<char> {
    joined_path(joined_path(base_dir, ".artzain"@), name)
}

/// The log file of one replica.
pub open spec fn replica_log_path(base_dir: Seq<char>, app: Seq<char>, replica: nat) -> Seq<char> {
    joined_path(
        control_path(base_dir, "logs"@),
        app + "-"@ + decimal_text(replica) + ".log"@,
    )
}

/// How many of the first `len` characters are left when the end is trimmed.
fn trimmed_len(chars: &Vec<char>, len: usize) -> (n: usize)
    requires
        len <= chars@.len(),
    ensures
        n <= len,
        chars@.take(n as int) == trimmed_path(chars@.take(len as int)),
{
    let mut n: usize = len;
    while n >= 2 && (chars[n - 1] == '/' || (chars[n - 1] == '.' && chars[n - 2] == '/'))
        invariant
            n <= len <= chars@.len(),
            trimmed_path(chars@.take(len as int)) == trimmed_path(chars@.take(n as int)),
        decreases n,
    {
        assert(chars@.take(n as int).drop_last() == chars@.take(n - 1));
        n -= 1;
    }
    n
}

/// Whether a path starts at the root.
pub fn is_absolute(p: &str) -> (r: bool)
    ensures
        r == is_absolute_path(p@),
{
    let chars = chars_of(p);
    chars.len() > 0 && chars[0] == '/'
}

/// The path without its last component.
pub fn parent(p: &str) -> (r: Option<String>)
    ensures
        match r {
            Some(dir) => parent_path(p@) == Some(dir@),
            None => parent_path(p@) is None,
        },
{
    let chars = chars_of(p);
    let n = trimmed_len(&chars, chars.len());
    let ghost t = trimmed_path(p@);
    assert(chars@.take(chars@.len() as int) == p@);
    if n == 0 {
        return None;
    }
    if n == 1 && chars[0] == '/' {
        assert(t == seq!['/']);
        return None;
    }
    assert(t != seq!['/']) by {
        assert(t[0] == chars@[0]);
    }
    match find_last_char(&chars, '/', n) {
        Some(i) => {
            let m = trimmed_len(&chars, i + 1);
            assert(t.take(i + 1) == chars@.take(i + 1));
            assert(chars@.subrange(0, m as int) == chars@.take(m as int));
            Some(text_of(&chars, 0, m))
        },
        None => Some(String::new()),
    }
}

/// The last component of a path, where it names a file or a directory.
pub fn last_component(p: &str) -> (r: Option<String>)
    ensures
        match r {
            Some(name) => file_name(p@) == Some(name@),
            None => file_name(p@) is None,
        },
{
    let chars = chars_of(p);
    let n = trimmed_len(&chars, chars.len());
    let ghost t = trimmed_path(p@);
    assert(chars@.take(chars@.len() as int) == p@);
    let start: usize = match find_last_char(&chars, '/', n) {
        Some(i) => i + 1,
        None => 0,
    };
    let ghost last = match last_at(t, '/') {
        Some(i) => t.skip(i + 1),
        None => t,
    };
    assert(last == chars@.subrange(start as int, n as int));
    if start == n {
        return None;
    }
    if n - start == 1 && chars[start] == '.' {
        assert(last == seq!['.']);
        return None;
    }
    if n - start == 2 && chars[start] == '.' && chars[start + 1] == '.' {
        assert(last == seq!['.', '.']);
        return None;
    }
    assert(last != seq!['.'] && last != seq!['.', '.']) by {
        assert(last[0] == chars@[start as int]);
        if last.len() == 2 {
            assert(last[1] == chars@[start + 1]);
        }
    }
    Some(text_of(&chars, start, n))
}

/// `p` seen from `base`.
pub fn join(base: &str, p: &str) -> (r: String)
    ensures
        r@ == joined_path(base@, p@),
{
    if is_absolute(p) {
        return p.to_owned();
    }
    let chars = chars_of(base);
    if chars.len() == 0 || chars[chars.len() - 1] == '/' {
        join2(base, p)
    } else {
        let mut r = base.to_owned();
        r.push('/');
        r.append(p);
        assert(r@ == base@ + seq!['/'] + p@);
        r
    }
}

/// The directory that a manifest's relative paths are seen from.
pub fn base_dir(manifest_path: &str) -> (r: String)
    ensures
        r@ == base_dir_path(manifest_path@),
{
    match parent(manifest_path) {
        Some(dir) => if dir.as_str().is_empty() {
            ".".to_owned()
        } else {
            dir
        },
        None => ".".to_owned(),
    }
}

/// `p` with another last component.
pub fn with_file_name(p: &str, name: &str) -> (r: String)
    ensures
        r@ == renamed_path(p@, name@),
{
    match (last_component(p), parent(p)) {
        (Some(_), Some(dir)) => join(dir.as_str(), name),
        _ => join(p, name),
    }
}

/// Where a file is written before it takes the place of `path`: beside it, under a name that
/// carries the process id.
pub fn temp_sibling(path: &str, pid: u32) -> (r: String)
    ensures
        r@ == temp_path(path@, pid as nat),
{
    let mut name = match last_component(path) {
        Some(n) => n,
        None => "artzain".to_owned(),
    };
    name.append(".");
    name.append(decimal(pid as u64).as_str());
    name.append(".tmp");
    with_file_name(path, name.as_str())
}

/// The directory of everything that is written beside the manifest.
pub fn control_dir(base_dir: &str) -> (r: String)
    ensures
        r@ == joined_path(base_dir@, ".artzain"@),
{
    join(base_dir, ".artzain")
}

/// The file that the state of the cluster is written to.
pub fn state_path(base_dir: &str) -> (r: String)
    ensures
        r@ == control_path(base_dir@, "state.json"@),
{
    join(control_dir(base_dir).as_str(), "state.json")
}

/// The directory of the log files.
pub fn log_dir(base_dir: &str) -> (r: String)
    ensures
        r@ == control_path(base_dir@, "logs"@),
{
    join(control_dir(base_dir).as_str(), "logs")
}

/// The log file of one replica.
pub fn log_path(base_dir: &str, app: &str, replica: u32) -> (r: String)
    ensures
        r@ == replica_log_path(base_dir@, app@, replica as nat),
{
    let mut name = join3(app, "-", decimal(replica as u64).as_str());
    name.append(".log");
    join(log_dir(base_dir).as_str(), name.as_str())
}

/// A piece of a path as a name: nothing where it is empty or stands for the directory itself.
pub open spec fn piece_name(piece: Seq<char>) -> Seq<Seq<char>> {
    if piece.len() == 0 || piece == "."@ {
        seq![]
    } else {
        seq![piece]
    }
}

/// The first piece of a path, up to its first slash.
pub open spec fn first_piece(p: Seq<char>) -> Seq<char> {
    match first_at(p, '/', 0) {
        Some(i) => p.take(i),
        None => p,
    }
}

/// The names in a path, in order. Repeated slashes and pieces that are a single dot count for
/// nothing.
pub open spec fn path_names(p: Seq<char>) -> Seq<Seq<char>>
    decreases p.len(),
{
    match first_at(p, '/', 0) {
        None => piece_name(p),
        Some(i) => if 0 <= i < p.len() {
            piece_name(p.take(i)) + path_names(p.skip(i + 1))
        } else {
            seq![]
        },
    }
}

/// What a path is: whether it is absolute, whether it begins with the directory that it is seen
/// from, and its names.
pub open spec fn path_parts(p: Seq<char>) -> (bool, bool, Seq<Seq<char>>) {
    (is_absolute_path(p), first_piece(p) == "."@, path_names(p))
}

/// The parts of a path.
pub struct PathParts {
    pub absolute: bool,
    /// Whether it begins with a single dot.
    pub here: bool,
    pub names: Vec<String>,
}

/// Takes a path apart. Paths that lead the same way, however they are written, have the same
/// parts.
pub fn split_path(p: &str) -> (r: PathParts)
    ensures
        (r.absolute, r.here, texts(r.names@)) == path_parts(p@),
{
    let chars = chars_of(p);
    let mut names: Vec<String> = Vec::new();
    let mut here = false;
    let mut from: usize = 0;
    assert(chars@.skip(0) =~= chars@);
    assert(texts(names@) =~= seq![]);
    assert(texts(names@) + path_names(p@) =~= path_names(p@));
    let n: usize = chars.len();
    loop
        invariant_except_break
            texts(names@) + path_names(p@.skip(from as int)) == path_names(p@),
        invariant
            n == chars@.len(),
            from <= n,
            chars@ == p@,
            from > 0 ==> here == (first_piece(p@) == "."@),
        ensures
            here == (first_piece(p@) == "."@),
            texts(names@) == path_names(p@),
        decreases n - from,
    {
        let ghost rest = p@.skip(from as int);
        proof {
            lemma_first_at_skip(p@, '/', from as int, 0);
            lemma_first_at(rest, '/', 0);
        }
        let found = find_char(&chars, '/', from);
        let to: usize = match found {
            Some(i) => i,
            None => n,
        };
        let piece = text_of(&chars, from, to);
        assert(piece@ =~= rest.take(to - from));
        assert(rest.take(rest.len() as int) =~= rest);
        let dot = str_eq(piece.as_str(), ".");
        if from == 0 {
            assert(p@.skip(0) =~= p@);
            here = dot;
        }
        let ghost before = texts(names@);
        if to > from && !dot {
            let ghost list = names@;
            let ghost text = piece@;
            names.push(piece);
            assert(texts(names@) =~= texts(list).push(text));
        }
        assert(texts(names@) =~= before + piece_name(rest.take(to - from)));
        match found {
            None => {
                break;
            },
            Some(i) => {
                proof {
                    assert(rest.skip(i - from + 1) =~= p@.skip(i + 1));
                    assert(before + (piece_name(rest.take(to - from)) + path_names(p@.skip(i + 1)))
                        =~= texts(names@) + path_names(p@.skip(i + 1)));
                }
                from = i + 1;
            },
        }
    }
    PathParts { absolute: is_absolute(p), here, names }
}

} // verus!
