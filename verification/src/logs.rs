//! Reading the logs of a cluster: which files, how much of each, and from where as they grow.

use crate::order::NameSet;
use crate::text::{
    chars_of, find_last_char, has_prefix, last_at, lines, split_lines, text_of, texts,
};
use vstd::prelude::*;

verus! {

/// A file's name without its extension.
pub open spec fn stem(name: Seq<char>) -> Seq<char> {
    match last_at(name, '.') {
        Some(i) => if i == 0 {
            name
        } else {
            name.take(i)
        },
        None => name,
    }
}

/// Whether a log file is one of the given app's; any is, where none is given.
pub open spec fn is_log_of(name: Seq<char>, app: Option<Seq<char>>) -> bool {
    match app {
        Some(a) => a.is_prefix_of(stem(name)),
        None => true,
    }
}

fn stem_of(name: &str) -> (r: String)
    ensures
        r@ == stem(name@),
{
    let chars = chars_of(name);
    assert(chars@.take(chars@.len() as int) =~= chars@);
    match find_last_char(&chars, '.', chars.len()) {
        Some(i) => {
            if i == 0 {
                name.to_owned()
            } else {
                let s = text_of(&chars, 0, i);
                assert(s@ =~= name@.take(i as int));
                s
            }
        },
        None => name.to_owned(),
    }
}

/// Those of the files in the log directory that belong to the app, or all of them where none is
/// given, in ascending order.
pub fn log_files(names: &Vec<String>, app: Option<&str>) -> (r: NameSet)
    ensures
        r.wf(),
        forall|n: Seq<char>| #[trigger]
            r@.contains(n) <==> texts(names@).contains(n) && is_log_of(
                n,
                match app {
                    Some(a) => Some(a@),
                    None => None,
                },
            ),
{
    let ghost wanted = match app {
        Some(a) => Some(a@),
        None => None,
    };
    let ghost all = texts(names@);
    let mut out = NameSet::new();
    let mut i: usize = 0;
    assert(all.take(0) =~= seq![]);
    while i < names.len()
        invariant
            i <= names@.len(),
            all == texts(names@),
            wanted == match app {
                Some(a) => Some(a@),
                None => None,
            },
            out.wf(),
            forall|n: Seq<char>| #[trigger]
                out@.contains(n) <==> all.take(i as int).contains(n) && is_log_of(n, wanted),
        decreases names@.len() - i,
    {
        let fits = match app {
            Some(a) => {
                let s = stem_of(names[i].as_str());
                has_prefix(s.as_str(), a)
            },
            None => true,
        };
        let ghost before = out@;
        if fits {
            out.insert(names[i].as_str());
        }
        proof {
            let x = names@[i as int]@;
            let head = all.take(i as int);
            let longer = all.take(i + 1);
            assert(longer =~= head.push(x));
            assert forall|n: Seq<char>| #[trigger] longer.contains(n) <==> head.contains(n) || n
                == x by {
                if head.contains(n) {
                    let k = choose|k: int| 0 <= k < head.len() && head[k] == n;
                    assert(longer[k] == n);
                }
                if n == x {
                    assert(longer[i as int] == n);
                }
                if longer.contains(n) {
                    let k = choose|k: int| 0 <= k < longer.len() && longer[k] == n;
                    if k < i {
                        assert(head[k] == n);
                    }
                }
            }
        }
        i += 1;
    }
    assert(all.take(i as int) =~= all);
    out
}

/// The last `n` of a list.
pub open spec fn last_of(list: Seq<Seq<char>>, n: nat) -> Seq<Seq<char>> {
    if n >= list.len() {
        list
    } else {
        list.skip(list.len() - n)
    }
}

/// The last `n` lines of a text.
pub fn tail(text: &str, n: usize) -> (r: Vec<String>)
    ensures
        texts(r@) == last_of(lines(text@), n as nat),
{
    let all = split_lines(text);
    assert(texts(all@).len() == all@.len());
    let from: usize = if n >= all.len() {
        0
    } else {
        all.len() - n
    };
    let mut out: Vec<String> = Vec::new();
    let mut i: usize = from;
    while i < all.len()
        invariant
            from <= i <= all@.len(),
            out@.len() == i - from,
            forall|k: int| 0 <= k < out@.len() ==> (#[trigger] out@[k])@ == all@[from + k]@,
        decreases all@.len() - i,
    {
        out.push(all[i].clone());
        i += 1;
    }
    assert(texts(out@) =~= last_of(lines(text@), n as nat));
    out
}

/// Where a file that grows has something new.
pub open spec fn resume_at(pos: u64, last_size: u64, size: u64) -> Option<u64> {
    if size < last_size || size < pos {
        Some(0u64)
    } else if size > pos {
        Some(pos)
    } else {
        None
    }
}

/// Where to go on reading a file that grows, `pos` being how far it was read, `last_size` its size
/// then, and `size` its size now: from the start where it has shrunk, from where it was left where
/// it has grown, and nowhere else.
pub fn follow_from(pos: u64, last_size: u64, size: u64) -> (r: Option<u64>)
    ensures
        r == if size < last_size || size < pos {
            Some(0u64)
        } else if size > pos {
            Some(pos)
        } else {
            None
        },
        r == resume_at(pos, last_size, size),
{
    if size < last_size || size < pos {
        Some(0)
    } else if size > pos {
        Some(pos)
    } else {
        None
    }
}

} // verus!
