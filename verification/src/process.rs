//! The rules around one process: how its output is labelled and its log rotated, whom a signal
//! goes to, and how the answers of the system are read.

use crate::manifest::Limits;
use crate::probe::{lossily_decoded, lossy_text};
use crate::text::{
    chars_of, decimal, decimal_text, join3, lines, pad_right, padded, read_signed, signed_number,
    split_lines, texts, trim_range, trimmed,
};
use vstd::prelude::*;

verus! {

/// The error number of a process that does not exist.
pub const NO_SUCH_PROCESS: i32 = 3;

/// The colours of labels.
pub open spec fn palette() -> Seq<Seq<char>> {
    seq!["36"@, "32"@, "33"@, "35"@, "34"@, "96"@, "92"@, "93"@, "95"@, "94"@]
}

/// The sum of the first `n` bytes.
pub open spec fn byte_sum(bytes: Seq<u8>, n: int) -> nat
    decreases n,
{
    if n <= 0 {
        0
    } else {
        byte_sum(bytes, n - 1) + bytes[n - 1] as nat
    }
}

/// The colour of an app's label: one of the palette, chosen by the bytes of its name.
pub open spec fn color(app: Seq<char>) -> Seq<char> {
    let bytes = vstd::utf8::encode_utf8(app);
    palette()[byte_sum(bytes, bytes.len() as int) as int % 10]
}

/// The colour of an app's label, the same for all of its replicas.
pub fn color_for(app: &str) -> (r: &'static str)
    ensures
        r@ == color(app@),
{
    let bytes = app.as_bytes();
    let mut at: u64 = 0;
    let mut i: usize = 0;
    while i < bytes.len()
        invariant
            i <= bytes@.len(),
            at < 10,
            at == byte_sum(bytes@, i as int) % 10,
        decreases bytes@.len() - i,
    {
        at = (at + bytes[i] as u64) % 10;
        i += 1;
    }
    match at {
        0 => "36",
        1 => "32",
        2 => "33",
        3 => "35",
        4 => "34",
        5 => "96",
        6 => "92",
        7 => "93",
        8 => "95",
        _ => "94",
    }
}

/// The label in front of each line that an instance prints.
pub open spec fn label(app: Seq<char>, replica: nat, color: Seq<char>) -> Seq<char> {
    "\u{1b}["@ + color + "m["@ + padded(app + "/"@ + decimal_text(replica), 14) + "]\u{1b}[0m"@
}

/// The label in front of each line that an instance prints, in the given colour.
pub fn tag(app: &str, replica: u32, color: &str) -> (r: String)
    ensures
        r@ == label(app@, replica as nat, color@),
{
    let number = decimal(replica as u64);
    let name = join3(app, "/", number.as_str());
    let wide = pad_right(name.as_str(), 14);
    let mut r = join3("\u{1b}[", color, "m[");
    r.append(wide.as_str());
    r.append("]\u{1b}[0m");
    r
}

/// The number that stands for a process group.
pub open spec fn group_number(pgid: i32) -> Option<i32> {
    if pgid > 0 {
        Some((-pgid) as i32)
    } else {
        None
    }
}

/// The number that stands for a process.
pub open spec fn process_number(pid: u32) -> Option<i32> {
    if 0 < pid <= 0x7fff_ffff {
        Some(pid as i32)
    } else {
        None
    }
}

/// Whether an answer of the system means that a process is there.
pub open spec fn lives(rc: i32, errno: i32) -> bool {
    rc == 0 || errno != NO_SUCH_PROCESS
}

/// The number to signal a process group by; nothing where there is no such group.
pub fn group_target(pgid: i32) -> (r: Option<i32>)
    ensures
        r == if pgid > 0 {
            Some((-pgid) as i32)
        } else {
            None
        },
        r == group_number(pgid),
{
    if pgid > 0 {
        Some(-pgid)
    } else {
        None
    }
}

/// The number to signal a process by; nothing where no process can have it.
pub fn process_target(pid: u32) -> (r: Option<i32>)
    ensures
        r == if 0 < pid <= 0x7fff_ffff {
            Some(pid as i32)
        } else {
            None
        },
        r == process_number(pid),
{
    if pid > 0 && pid <= 0x7fff_ffff {
        Some(pid as i32)
    } else {
        None
    }
}

/// Whether a process or group lives, by what the system answers to a signal that does nothing:
/// `rc` is its answer and `errno` the error, if there is one. One that may not be signalled lives.
pub fn is_alive(rc: i32, errno: i32) -> (r: bool)
    ensures
        r == (rc == 0 || errno != NO_SUCH_PROCESS),
        r == lives(rc, errno),
{
    rc == 0 || errno != NO_SUCH_PROCESS
}

/// The numbers that stand alone on a line, blanks aside, in the first `n` lines.
pub open spec fn numbers_in(list: Seq<Seq<char>>, n: int) -> Seq<i32>
    decreases n,
{
    if n <= 0 {
        seq![]
    } else {
        match signed_number(trimmed(list[n - 1])) {
            Some(k) => numbers_in(list, n - 1).push(k as i32),
            None => numbers_in(list, n - 1),
        }
    }
}

/// The process numbers in a listing, one to a line; other lines are skipped.
pub fn listed_pids(text: &str) -> (r: Vec<i32>)
    ensures
        r@ == numbers_in(lines(text@), lines(text@).len() as int),
{
    let list = split_lines(text);
    let ghost all = lines(text@);
    assert(texts(list@).len() == list@.len());
    let mut out: Vec<i32> = Vec::new();
    let mut i: usize = 0;
    while i < list.len()
        invariant
            i <= list@.len(),
            all == texts(list@),
            out@ == numbers_in(all, i as int),
        decreases list@.len() - i,
    {
        let chars = chars_of(list[i].as_str());
        assert(all[i as int] == list@[i as int]@);
        let (from, to) = trim_range(&chars, 0, chars.len());
        assert(chars@.subrange(0, chars@.len() as int) =~= chars@);
        match read_signed(&chars, from, to) {
            Some(n) => out.push(n),
            None => {},
        }
        i += 1;
    }
    out
}

/// The processes that `lsof -t` printed.
pub fn port_listeners(output: &[u8]) -> (r: Vec<i32>)
    ensures
        r@ == numbers_in(
            lines(lossily_decoded(output@)),
            lines(lossily_decoded(output@)).len() as int,
        ),
        vstd::utf8::valid_utf8(output@) ==> r@ == numbers_in(
            lines(vstd::utf8::decode_utf8(output@)),
            lines(vstd::utf8::decode_utf8(output@)).len() as int,
        ),
{
    let text = lossy_text(output);
    listed_pids(text.as_str())
}

/// A limit given in MiB, in bytes; nothing where that is no number of bytes.
pub fn memory_bytes(mib: u64) -> (r: Option<u64>)
    ensures
        match r {
            Some(n) => n == mib * 0x10_0000,
            None => mib * 0x10_0000 > u64::MAX,
        },
{
    mib.checked_mul(0x10_0000)
}

/// One thing that a new process does to itself before its binary takes over.
#[derive(Debug, Clone, Copy, PartialEq, Eq, Structural)]
pub enum ChildStep {
    /// Become a member of this group.
    SetGroup(u32),
    /// Leave all other groups.
    ClearGroups,
    /// Become this user.
    SetUser(u32),
    /// Have no more than so many files open.
    LimitFiles(u64),
    /// Use no more than so many bytes of address space.
    LimitMemory(u64),
}

/// The steps that change whom a process runs as: the groups before the user, since a process that
/// has given up its user may not change its groups any more.
pub open spec fn identity_steps(uid: Option<u32>, gid: Option<u32>) -> Seq<ChildStep> {
    let groups = match gid {
        Some(g) => seq![ChildStep::SetGroup(g), ChildStep::ClearGroups],
        None => seq![],
    };
    let user = match uid {
        Some(u) => seq![ChildStep::SetUser(u)],
        None => seq![],
    };
    groups + user
}

/// The steps that limit what a process may use.
pub open spec fn limit_steps(limits: Option<Limits>) -> Seq<ChildStep> {
    match limits {
        Some(l) => {
            let files = match l.open_files {
                Some(n) => seq![ChildStep::LimitFiles(n)],
                None => seq![],
            };
            let memory = match l.memory_mb {
                Some(n) => seq![ChildStep::LimitMemory((n * 0x10_0000) as u64)],
                None => seq![],
            };
            files + memory
        },
        None => seq![],
    }
}

/// Whether the memory limit is no number of bytes.
pub open spec fn memory_out_of_range(limits: Option<Limits>) -> bool {
    limits matches Some(l) && l.memory_mb matches Some(n) && n * 0x10_0000 > u64::MAX
}

/// What a new process does to itself before its binary takes over, in this order. If any of it
/// fails, or the memory limit is no number of bytes, the binary is not to be run.
pub fn child_steps(uid: Option<u32>, gid: Option<u32>, limits: &Option<Limits>) -> (r: Option<
    Vec<ChildStep>,
>)
    ensures
        r is None <==> memory_out_of_range(*limits),
        r matches Some(steps) ==> steps@ == identity_steps(uid, gid) + limit_steps(*limits),
{
    let mut steps: Vec<ChildStep> = Vec::new();
    if let Some(g) = gid {
        steps.push(ChildStep::SetGroup(g));
        steps.push(ChildStep::ClearGroups);
    }
    if let Some(u) = uid {
        steps.push(ChildStep::SetUser(u));
    }
    assert(steps@ =~= identity_steps(uid, gid));
    if let Some(l) = limits {
        if let Some(n) = l.open_files {
            steps.push(ChildStep::LimitFiles(n));
        }
        if let Some(n) = l.memory_mb {
            match memory_bytes(n) {
                Some(bytes) => steps.push(ChildStep::LimitMemory(bytes)),
                None => {
                    return None;
                },
            }
        }
    }
    assert(steps@ =~= identity_steps(uid, gid) + limit_steps(*limits));
    Some(steps)
}

/// The size of a log file after one more line.
pub open spec fn grown(size: nat, line_len: nat) -> nat {
    size + line_len + 1
}

/// Whether a log file has no room for one more line.
pub open spec fn must_rotate(size: u64, line_len: u64, max_bytes: u64) -> bool {
    max_bytes > 0 && grown(size as nat, line_len as nat) > max_bytes
}

/// The size of a log file after one more line.
pub open spec fn size_with(size: u64, line_len: u64, rotated: bool) -> nat {
    if grown(fresh(size, rotated), line_len as nat) > u64::MAX {
        u64::MAX as nat
    } else {
        grown(fresh(size, rotated), line_len as nat)
    }
}

/// Whether a log file of `size` bytes is to be rotated before a line of `line_len` bytes is
/// written to it; a limit of 0 means never.
pub fn rotation_due(size: u64, line_len: u64, max_bytes: u64) -> (r: bool)
    ensures
        r == (max_bytes > 0 && grown(size as nat, line_len as nat) > max_bytes),
        r == must_rotate(size, line_len, max_bytes),
{
    max_bytes > 0 && size as u128 + line_len as u128 + 1 > max_bytes as u128
}

/// The size of a log file after one more line, its size before being that of an empty file where
/// it was rotated.
pub fn size_after(size: u64, line_len: u64, rotated: bool) -> (r: u64)
    ensures
        r == if grown(fresh(size, rotated), line_len as nat) > u64::MAX {
            u64::MAX as nat
        } else {
            grown(fresh(size, rotated), line_len as nat)
        },
        r == size_with(size, line_len, rotated),
{
    if rotated {
        line_len.saturating_add(1)
    } else {
        size.saturating_add(line_len).saturating_add(1)
    }
}

/// The size of the current log file: nothing right after a rotation.
pub open spec fn fresh(size: u64, rotated: bool) -> nat {
    if rotated {
        0
    } else {
        size as nat
    }
}

/// A log file never grows past its limit, as long as no single line does: rotated when it is due,
/// it holds no more than the limit after any line.
pub proof fn law_log_stays_within_limit(size: u64, line_len: u64, max_bytes: u64)
    requires
        max_bytes > 0,
        size <= max_bytes,
        grown(0, line_len as nat) <= max_bytes,
    ensures
        ({
            let due = grown(size as nat, line_len as nat) > max_bytes;
            grown(fresh(size, due), line_len as nat) <= max_bytes
        }),
{
}

/// One move of a rotation. File 0 is the current log, file `i` its backup `i`.
#[derive(Debug, Clone, Copy, PartialEq, Eq, Structural)]
pub enum LogMove {
    /// Remove the file, if it is there.
    Remove(u32),
    /// Give the file, if it is there, the next number.
    Shift(u32),
}

/// What a move does to the files.
pub open spec fn moved<T>(files: Map<nat, T>, m: LogMove) -> Map<nat, T> {
    match m {
        LogMove::Remove(i) => files.remove(i as nat),
        LogMove::Shift(i) => if files.dom().contains(i as nat) {
            files.insert((i + 1) as nat, files[i as nat]).remove(i as nat)
        } else {
            files
        },
    }
}

/// What the first `n` moves do to the files.
pub open spec fn moved_all<T>(files: Map<nat, T>, moves: Seq<LogMove>, n: int) -> Map<nat, T>
    decreases n,
{
    if n <= 0 {
        files
    } else {
        moved(moved_all(files, moves, n - 1), moves[n - 1])
    }
}

/// The files after a rotation: each has the next number, and of those whose number would reach
/// `keep` nothing is left.
pub open spec fn rotated<T>(files: Map<nat, T>, keep: u32) -> Map<nat, T> {
    Map::new(
        |i: nat|
            if i >= keep && i >= 1 {
                files.dom().contains(i)
            } else {
                i >= 1 && files.dom().contains((i - 1) as nat)
            },
        |i: nat|
            if i >= keep && i >= 1 {
                files[i]
            } else {
                files[(i - 1) as nat]
            },
    )
}

/// The moves of a rotation.
pub open spec fn rotation(keep: u32) -> Seq<LogMove> {
    if keep <= 1 {
        seq![LogMove::Remove(0)]
    } else {
        Seq::new(
            keep as nat,
            |k: int|
                if k == 0 {
                    LogMove::Remove((keep - 1) as u32)
                } else {
                    LogMove::Shift((keep - 1 - k) as u32)
                },
        )
    }
}

/// The moves that make room for a new log file, in the order in which they are made: the oldest
/// backup goes, the others move up one, and the current file becomes the first backup.
pub fn rotate_log(keep: u32) -> (moves: Vec<LogMove>)
    ensures
        moves@ == rotation(keep),
{
    let mut moves: Vec<LogMove> = Vec::new();
    if keep <= 1 {
        moves.push(LogMove::Remove(0));
        return moves;
    }
    moves.push(LogMove::Remove(keep - 1));
    let mut i: u32 = keep - 1;
    while i > 0
        invariant
            i <= keep - 1,
            keep >= 2,
            moves@.len() == keep - i,
            forall|k: int| 0 <= k < moves@.len() ==> #[trigger] moves@[k] == rotation(keep)[k],
        decreases i,
    {
        i -= 1;
        moves.push(LogMove::Shift(i));
    }
    assert(moves@ =~= rotation(keep));
    moves
}

/// The name of a log file: the current log has the path itself, its backup `i` that and `.i`.
pub open spec fn log_file_name(path: Seq<char>, i: nat) -> Seq<char> {
    if i == 0 {
        path
    } else {
        path + "."@ + decimal_text(i)
    }
}

/// The name of log file `i` of the log at `path`.
pub fn log_file(path: &str, i: u32) -> (r: String)
    ensures
        r@ == log_file_name(path@, i as nat),
{
    if i == 0 {
        path.to_owned()
    } else {
        let n = decimal(i as u64);
        join3(path, ".", n.as_str())
    }
}

proof fn lemma_rotation<T>(files: Map<nat, T>, keep: u32, n: int)
    requires
        keep >= 2,
        1 <= n <= keep,
    ensures
        ({
            let after = moved_all(files, rotation(keep), n);
            &&& forall|i: nat| #[trigger]
                after.dom().contains(i) <==> if i >= keep {
                    files.dom().contains(i)
                } else if i > keep - n {
                    files.dom().contains((i - 1) as nat)
                } else if i == keep - n {
                    false
                } else {
                    files.dom().contains(i)
                }
            &&& forall|i: nat| #[trigger]
                after.dom().contains(i) ==> after[i] == if i >= keep || i < keep - n {
                    files[i]
                } else {
                    files[(i - 1) as nat]
                }
        }),
    decreases n,
{
    let moves = rotation(keep);
    if n == 1 {
        assert(moved_all(files, moves, 0) == files);
        assert(moves[0] == LogMove::Remove((keep - 1) as u32));
    } else {
        lemma_rotation(files, keep, n - 1);
        let before = moved_all(files, moves, n - 1);
        assert(moves[n - 1] == LogMove::Shift((keep - n) as u32));
        assert(!before.dom().contains((keep - n + 1) as nat));
    }
}

/// A rotation loses nothing but the oldest file: every file has the next number after it, unless
/// that would reach the number of files to keep. So where no more than those were there before,
/// no more than those are there once the new log is.
pub proof fn law_rotation_shifts<T>(files: Map<nat, T>, keep: u32)
    requires
        keep >= 1,
    ensures
        moved_all(files, rotation(keep), rotation(keep).len() as int) == rotated(files, keep),
        (forall|i: nat| #[trigger] files.dom().contains(i) ==> i < keep) ==> (forall|i: nat|
         #[trigger]
            rotated(files, keep).dom().contains(i) ==> 1 <= i < keep),
{
    let after = moved_all(files, rotation(keep), rotation(keep).len() as int);
    if keep == 1 {
        assert(moved_all(files, rotation(keep), 0) == files);
        assert(after =~= rotated(files, keep));
    } else {
        lemma_rotation(files, keep, keep as int);
        assert(after =~= rotated(files, keep));
    }
}

/// The sizes of a log's files after one more line: the current file, file 0, is rotated first if
/// that is due.
pub open spec fn logged(files: Map<nat, nat>, line_len: nat, max_bytes: u64, keep: u32) -> Map<
    nat,
    nat,
> {
    let size = if files.dom().contains(0) {
        files[0]
    } else {
        0
    };
    if grown(size, line_len) > max_bytes {
        rotated(files, keep).insert(0, grown(0, line_len))
    } else {
        files.insert(0, grown(size, line_len))
    }
}

/// The sizes of a log's files after the first `n` lines.
pub open spec fn logged_all(
    files: Map<nat, nat>,
    lines: Seq<nat>,
    n: int,
    max_bytes: u64,
    keep: u32,
) -> Map<nat, nat>
    decreases n,
{
    if n <= 0 {
        files
    } else {
        logged(logged_all(files, lines, n - 1, max_bytes, keep), lines[n - 1], max_bytes, keep)
    }
}

/// The sizes of the first `n` files together.
pub open spec fn total_size(files: Map<nat, nat>, n: nat) -> nat
    decreases n,
{
    if n == 0 {
        0
    } else {
        total_size(files, (n - 1) as nat) + if files.dom().contains((n - 1) as nat) {
            files[(n - 1) as nat]
        } else {
            0
        }
    }
}

/// Whether a log has no file beyond those to keep, and none that is larger than the limit.
pub open spec fn within_limits(files: Map<nat, nat>, max_bytes: u64, keep: u32) -> bool {
    forall|i: nat| #[trigger] files.dom().contains(i) ==> i < keep && files[i] <= max_bytes
}

proof fn lemma_total_size(files: Map<nat, nat>, n: nat, max_bytes: u64, keep: u32)
    requires
        within_limits(files, max_bytes, keep),
    ensures
        total_size(files, n) <= n * max_bytes,
    decreases n,
{
    if n > 0 {
        lemma_total_size(files, (n - 1) as nat, max_bytes, keep);
        assert(n * max_bytes == (n - 1) * max_bytes + max_bytes) by (nonlinear_arith);
    }
}

proof fn lemma_logged_all(
    files: Map<nat, nat>,
    lines: Seq<nat>,
    n: int,
    max_bytes: u64,
    keep: u32,
)
    requires
        0 <= n <= lines.len(),
        keep >= 1,
        within_limits(files, max_bytes, keep),
        forall|i: int| 0 <= i < lines.len() ==> grown(0, #[trigger] lines[i]) <= max_bytes,
    ensures
        within_limits(logged_all(files, lines, n, max_bytes, keep), max_bytes, keep),
    decreases n,
{
    if n > 0 {
        lemma_logged_all(files, lines, n - 1, max_bytes, keep);
        let before = logged_all(files, lines, n - 1, max_bytes, keep);
        let after = logged_all(files, lines, n, max_bytes, keep);
        let len = lines[n - 1];
        assert forall|i: nat| #[trigger] after.dom().contains(i) implies i < keep && after[i]
            <= max_bytes by {
            let size = if before.dom().contains(0) {
                before[0]
            } else {
                0
            };
            if grown(size, len) > max_bytes && i != 0 {
                assert(rotated(before, keep).dom().contains(i));
                if i >= keep {
                    assert(before.dom().contains(i));
                } else {
                    assert(before.dom().contains((i - 1) as nat));
                }
            } else if i != 0 {
                assert(before.dom().contains(i));
            }
        }
    }
}

/// The logs of an instance cannot fill the disk: whatever is logged, as long as no single line
/// passes the limit of a file, there are never more files than are kept, and all of them together
/// hold no more than that many times the limit.
pub proof fn law_log_files_are_bounded(
    files: Map<nat, nat>,
    lines: Seq<nat>,
    max_bytes: u64,
    keep: u32,
)
    requires
        keep >= 1,
        max_bytes > 0,
        within_limits(files, max_bytes, keep),
        forall|i: int| 0 <= i < lines.len() ==> grown(0, #[trigger] lines[i]) <= max_bytes,
    ensures
        ({
            let after = logged_all(files, lines, lines.len() as int, max_bytes, keep);
            &&& within_limits(after, max_bytes, keep)
            &&& total_size(after, keep as nat) <= keep * max_bytes
        }),
{
    lemma_logged_all(files, lines, lines.len() as int, max_bytes, keep);
    let after = logged_all(files, lines, lines.len() as int, max_bytes, keep);
    lemma_total_size(after, keep as nat, max_bytes, keep);
}

} // verus!
