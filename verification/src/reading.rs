//! How texts are taken apart and put together: numbers, lines, words, answers of a server, names
//! of files and references to variables.

use crate::fixture::{answer, labelled_value, requested_path, Content};
use crate::logs::{is_log_of, last_of, stem};
use crate::order::{is_stable_order, key_before, text_lt};
use crate::paths::{
    base_dir_path, file_name, joined_path, parent_path, path_names, path_parts, temp_path,
    trimmed_path,
};
use crate::probe::{first_line, good_status, host_of, line_end};
use crate::process::numbers_in;
use crate::text::{
    all_digits, decimal_text, digit_char, digits_value, first_at, is_digit, is_space, joined,
    last_at, lemma_first_at, lemma_runs, lines, padded, signed_number, signed_text, space_run,
    trimmed, unsigned_number, word_run, words,
};
use crate::vars::{interpolated, resolved, string_table, uppercased, value_of, Fault};
use vstd::prelude::*;

verus! {

// Numbers.

proof fn lemma_decimal_digits(n: nat)
    ensures
        decimal_text(n).len() > 0,
        all_digits(decimal_text(n)),
        digits_value(decimal_text(n)) == n,
    decreases n,
{
    let t = decimal_text(n);
    let d = n % 10;
    assert(digit_char(d) as u32 == 48 + d);
    if n >= 10 {
        lemma_decimal_digits(n / 10);
        let head = decimal_text(n / 10);
        assert(t.drop_last() =~= head);
        assert forall|i: int| 0 <= i < t.len() implies is_digit(#[trigger] t[i]) by {
            if i < head.len() {
                assert(t[i] == head[i]);
            }
        }
    } else {
        assert(digit_char(n) as u32 == 48 + n);
        assert(t.drop_last() =~= seq![]);
        assert(digits_value(seq![]) == 0);
        assert(digits_value(t) == digits_value(t.drop_last()) * 10 + ((t.last() as u32
            - 48) as nat));
    }
}

/// A number that was written is read as itself, where it is no greater than what may be read, and
/// not at all where it is.
pub proof fn law_written_number_is_read_back(n: nat, max: nat)
    ensures
        unsigned_number(decimal_text(n), max) == if n <= max {
            Some(n)
        } else {
            None
        },
{
    lemma_decimal_digits(n);
    let t = decimal_text(n);
    assert(is_digit(t[0]));
}

/// Two numbers are written alike only if they are the same.
pub proof fn law_numbers_are_written_apart(a: nat, b: nat)
    requires
        decimal_text(a) == decimal_text(b),
    ensures
        a == b,
{
    lemma_decimal_digits(a);
    lemma_decimal_digits(b);
}

/// A signed number that was written is read as itself.
pub proof fn law_written_signed_number_is_read_back(n: int)
    requires
        -0x8000_0000 <= n <= 0x7fff_ffff,
    ensures
        signed_number(signed_text(n)) == Some(n),
{
    if n < 0 {
        let t = signed_text(n);
        lemma_decimal_digits((-n) as nat);
        assert(t.skip(1) =~= decimal_text((-n) as nat));
    } else {
        lemma_decimal_digits(n as nat);
        law_written_number_is_read_back(n as nat, 0x7fff_ffff);
        assert(is_digit(decimal_text(n as nat)[0]));
    }
}

// Lines and words.

proof fn lemma_first_newline(s: Seq<char>, t: Seq<char>)
    requires
        !s.contains('\n'),
    ensures
        first_at(s + seq!['\n'] + t, '\n', 0) == Some(s.len() as int),
        first_at(s, '\n', 0) is None,
{
    let all = s + seq!['\n'] + t;
    lemma_first_at(all, '\n', 0);
    lemma_first_at(s, '\n', 0);
    assert(all[s.len() as int] == '\n');
    match first_at(all, '\n', 0) {
        Some(i) => {
            if i < s.len() {
                assert(all[i] == s[i]);
                assert(s.contains(s[i]));
            }
        },
        None => {},
    }
    match first_at(s, '\n', 0) {
        Some(i) => {
            assert(s.contains(s[i]));
        },
        None => {},
    }
}

/// A text up to its first line break is its first line, without the carriage return at its end,
/// and what follows the break has the other lines. What no line break ends is a line as it is, if
/// it is not empty.
pub proof fn law_lines_end_at_line_breaks(s: Seq<char>, t: Seq<char>)
    requires
        !s.contains('\n'),
    ensures
        lines(s + seq!['\n'] + t) == seq![
            if s.len() > 0 && s.last() == '\r' {
                s.drop_last()
            } else {
                s
            },
        ] + lines(t),
        s.len() > 0 ==> lines(s) == seq![s],
        lines(seq![]).len() == 0,
{
    let all = s + seq!['\n'] + t;
    lemma_first_newline(s, t);
    assert(all.take(s.len() as int) =~= s);
    assert(all.skip(s.len() as int + 1) =~= t);
}

proof fn lemma_word_run(s: Seq<char>, t: Seq<char>)
    requires
        forall|i: int| 0 <= i < s.len() ==> !is_space(#[trigger] s[i]),
        t.len() == 0 || is_space(t[0]),
    ensures
        word_run(s + t) == s.len(),
    decreases s.len(),
{
    let all = s + t;
    if s.len() > 0 {
        assert(all[0] == s[0]);
        assert(all.skip(1) =~= s.skip(1) + t);
        assert forall|i: int| 0 <= i < s.skip(1).len() implies !is_space(
            #[trigger] s.skip(1)[i],
        ) by {
            assert(s.skip(1)[i] == s[i + 1]);
        }
        lemma_word_run(s.skip(1), t);
    } else {
        assert(all =~= t);
    }
}

/// White space before a word is passed over; a word goes up to the next white space or the end,
/// and what follows has the other words.
pub proof fn law_words_end_at_white_space(s: Seq<char>, t: Seq<char>)
    requires
        s.len() > 0,
        forall|i: int| 0 <= i < s.len() ==> !is_space(#[trigger] s[i]),
        t.len() == 0 || is_space(t[0]),
    ensures
        words(s + t) == seq![s] + words(t),
{
    let all = s + t;
    assert(all[0] == s[0]);
    assert(!is_space(s[0]));
    assert(space_run(all) == 0);
    assert(all.skip(0) =~= all);
    lemma_word_run(s, t);
    assert(all.take(s.len() as int) =~= s);
    assert(all.skip(s.len() as int) =~= t);
}

/// White space at the front makes no word.
pub proof fn law_white_space_makes_no_word(c: char, t: Seq<char>)
    requires
        is_space(c),
    ensures
        words(seq![c] + t) == words(t),
        words(seq![]).len() == 0,
{
    let all = seq![c] + t;
    assert(all.skip(1) =~= t);
    lemma_runs(t);
    lemma_runs(all);
    assert(space_run(all) == 1 + space_run(t));
    assert(all.skip(space_run(all) as int) =~= t.skip(space_run(t) as int));
    if space_run(t) >= t.len() {
        assert(words(t) =~= seq![]);
        assert(words(all) =~= seq![]);
    }
}

/// A trimmed text begins and ends with no white space, and only white space was taken away.
pub proof fn law_trimming_takes_white_space_only(s: Seq<char>) -> (cut: (int, int))
    ensures
        0 <= cut.0 <= cut.1 <= s.len(),
        trimmed(s) == s.subrange(cut.0, cut.1),
        forall|i: int| 0 <= i < cut.0 ==> is_space(#[trigger] s[i]),
        forall|i: int| cut.1 <= i < s.len() ==> is_space(#[trigger] s[i]),
        trimmed(s).len() > 0 ==> !is_space(trimmed(s)[0]) && !is_space(trimmed(s).last()),
    decreases s.len(),
{
    if s.len() > 0 && is_space(s[0]) {
        let rest = s.skip(1);
        let (a, b) = law_trimming_takes_white_space_only(rest);
        assert(rest.subrange(a, b) =~= s.subrange(a + 1, b + 1));
        assert forall|i: int| 0 <= i < a + 1 implies is_space(#[trigger] s[i]) by {
            if i > 0 {
                assert(rest[i - 1] == s[i]);
            }
        }
        assert forall|i: int| b + 1 <= i < s.len() implies is_space(#[trigger] s[i]) by {
            assert(rest[i - 1] == s[i]);
        }
        (a + 1, b + 1)
    } else if s.len() > 0 && is_space(s.last()) {
        let rest = s.drop_last();
        let (a, b) = law_trimming_takes_white_space_only(rest);
        assert(rest.subrange(a, b) =~= s.subrange(a, b));
        assert forall|i: int| 0 <= i < a implies is_space(#[trigger] s[i]) by {
            assert(rest[i] == s[i]);
        }
        assert forall|i: int| b <= i < s.len() implies is_space(#[trigger] s[i]) by {
            if i < rest.len() {
                assert(rest[i] == s[i]);
            }
        }
        (a, b)
    } else {
        assert(s.subrange(0, s.len() as int) =~= s);
        (0, s.len() as int)
    }
}

/// Of two texts the one comes first that has the lesser character where they first differ, or that
/// ends where the other goes on.
pub proof fn law_texts_are_ordered_by_first_difference(a: Seq<char>, b: Seq<char>, k: int)
    requires
        0 <= k <= a.len(),
        k <= b.len(),
        forall|i: int| 0 <= i < k ==> a[i] == b[i],
        k == a.len() || k == b.len() || a[k] != b[k],
    ensures
        text_lt(a, b) <==> k < b.len() && (k == a.len() || (a[k] as u32) < (b[k] as u32)),
    decreases k,
{
    if k > 0 {
        assert(a[0] == b[0]);
        assert forall|i: int| 0 <= i < k - 1 implies a.skip(1)[i] == b.skip(1)[i] by {
            assert(a[i + 1] == b[i + 1]);
        }
        law_texts_are_ordered_by_first_difference(a.skip(1), b.skip(1), k - 1);
    }
}

/// Sorting puts every index in its place once: the smaller keys first, and equal keys in the order
/// in which they stood.
pub proof fn law_sorting_is_stable(keys: Seq<u64>, order: Seq<usize>, a: int, b: int)
    requires
        is_stable_order(keys, keys.len() as int, order),
        0 <= a < b < order.len(),
    ensures
        order.len() == keys.len(),
        order[a] != order[b],
        keys[order[a] as int] < keys[order[b] as int] || (keys[order[a] as int]
            == keys[order[b] as int] && order[a] < order[b]),
{
    assert(key_before(keys, order[a], order[b]));
}

// What a server answers.

proof fn lemma_line_end(bytes: Seq<u8>, from: int)
    requires
        0 <= from <= bytes.len(),
    ensures
        from <= line_end(bytes, from) <= bytes.len(),
        forall|i: int|
            from <= i < line_end(bytes, from) ==> #[trigger] bytes[i] != 13 && bytes[i] != 10,
        line_end(bytes, from) < bytes.len() ==> bytes[line_end(bytes, from)] == 13
            || bytes[line_end(bytes, from)] == 10,
    decreases bytes.len() - from,
{
    if from < bytes.len() && bytes[from] != 13 && bytes[from] != 10 {
        lemma_line_end(bytes, from + 1);
    }
}

/// Only what stands before the first carriage return or line feed of an answer is looked at.
pub proof fn law_status_is_in_the_first_line(line: Seq<u8>, rest: Seq<u8>)
    requires
        forall|i: int| 0 <= i < line.len() ==> #[trigger] line[i] != 13 && line[i] != 10,
        rest.len() == 0 || rest[0] == 13 || rest[0] == 10,
    ensures
        first_line(line + rest) == line,
{
    let all = line + rest;
    lemma_line_end(all, 0);
    let e = line_end(all, 0);
    if e < line.len() {
        assert(all[e] == line[e]);
    } else if e > line.len() {
        assert(all[line.len() as int] == rest[0]);
    }
    assert(all.take(e) =~= line);
}

/// An answer counts as good exactly where its status is one of success or redirection, whatever
/// the version and whatever follows the status.
pub proof fn law_good_answers(version: Seq<char>, code: nat, rest: Seq<char>)
    requires
        forall|i: int| 0 <= i < version.len() ==> !is_space(#[trigger] version[i]),
        rest.len() == 0 || is_space(rest[0]),
    ensures
        good_status("HTTP/"@ + version + seq![' '] + decimal_text(code) + rest) <==> 200 <= code
            <= 399,
{
    let head = "HTTP/"@ + version;
    let number = decimal_text(code);
    let tail = seq![' '] + (number + rest);
    reveal_strlit("HTTP/");
    assert forall|i: int| 0 <= i < head.len() implies !is_space(#[trigger] head[i]) by {
        if i >= 5 {
            assert(head[i] == version[i - 5]);
        } else {
            assert(head[i] == "HTTP/"@[i]);
        }
    }
    lemma_decimal_digits(code);
    assert forall|i: int| 0 <= i < number.len() implies !is_space(#[trigger] number[i]) by {
        assert(is_digit(number[i]));
    }
    let line = "HTTP/"@ + version + seq![' '] + number + rest;
    assert(line =~= head + tail);
    assert(is_space(' '));
    law_words_end_at_white_space(head, tail);
    law_white_space_makes_no_word(' ', number + rest);
    law_words_end_at_white_space(number, rest);
    let w = words(line);
    assert(w =~= seq![head] + (seq![number] + words(rest)));
    assert(w[0] == head && w[1] == number);
    assert("HTTP/"@.is_prefix_of(head)) by {
        assert(head.take(5) =~= "HTTP/"@);
    }
    law_written_number_is_read_back(code, 65535);
}

/// An answer that does not begin with the protocol's name is never good, nor one with no status.
pub proof fn law_bad_answers(first: Seq<char>, rest: Seq<char>)
    requires
        first.len() > 0,
        forall|i: int| 0 <= i < first.len() ==> !is_space(#[trigger] first[i]),
        rest.len() == 0 || is_space(rest[0]),
        !"HTTP/"@.is_prefix_of(first) || words(rest).len() == 0,
    ensures
        !good_status(first + rest),
{
    law_words_end_at_white_space(first, rest);
    assert(words(first + rest)[0] == first);
}

proof fn lemma_last_at(s: Seq<char>, c: char)
    ensures
        match last_at(s, c) {
            Some(i) => 0 <= i < s.len() && s[i] == c && forall|j: int|
                i < j < s.len() ==> #[trigger] s[j] != c,
            None => forall|j: int| 0 <= j < s.len() ==> #[trigger] s[j] != c,
        },
    decreases s.len(),
{
    if s.len() > 0 && s.last() != c {
        let head = s.drop_last();
        lemma_last_at(head, c);
        assert forall|j: int| 0 <= j < head.len() implies head[j] == #[trigger] s[j] by {}
    }
}

proof fn lemma_last_at_is(a: Seq<char>, c: char, b: Seq<char>)
    requires
        !b.contains(c),
    ensures
        last_at(a + seq![c] + b, c) == Some(a.len() as int),
        last_at(b, c) is None,
{
    let s = a + seq![c] + b;
    lemma_last_at(s, c);
    lemma_last_at(b, c);
    assert(s[a.len() as int] == c);
    let i = last_at(s, c)->0;
    if i > a.len() {
        assert(s[i] == b[i - a.len() - 1]);
    }
    match last_at(b, c) {
        Some(k) => {
            assert(b.contains(b[k]));
        },
        None => {},
    }
}

/// The host of an address is what stands before its last colon, or all of it.
pub proof fn law_host_stands_before_the_port(host: Seq<char>, port: Seq<char>)
    requires
        !port.contains(':'),
    ensures
        host_of(host + seq![':'] + port) == host,
        host_of(port) == port,
{
    lemma_last_at_is(host, ':', port);
    assert((host + seq![':'] + port).take(host.len() as int) =~= host);
}

// Logs.

/// A log belongs to an app whose name its own name begins with, up to its last dot; without an app
/// every log is meant.
pub proof fn law_logs_of_an_app(name: Seq<char>, end: Seq<char>, app: Seq<char>)
    requires
        name.len() > 0,
        !end.contains('.'),
    ensures
        stem(name + seq!['.'] + end) == name,
        is_log_of(name + seq!['.'] + end, None),
        is_log_of(name + seq!['.'] + end, Some(app)) <==> app.len() <= name.len() && forall|i: int|
            0 <= i < app.len() ==> app[i] == name[i],
{
    lemma_last_at_is(name, '.', end);
    assert((name + seq!['.'] + end).take(name.len() as int) =~= name);
    if app.len() <= name.len() && (forall|i: int| 0 <= i < app.len() ==> app[i] == name[i]) {
        assert(name.subrange(0, app.len() as int) =~= app);
    }
    if app.is_prefix_of(name) {
        assert forall|i: int| 0 <= i < app.len() implies app[i] == name[i] by {
            assert(app[i] == name.subrange(0, app.len() as int)[i]);
        }
    }
}

/// The end of a log is its last lines, as many as are asked for or as there are.
pub proof fn law_tail_is_the_end(list: Seq<Seq<char>>, n: nat, i: int)
    requires
        0 <= i < last_of(list, n).len(),
    ensures
        last_of(list, n).len() == if n < list.len() {
            n
        } else {
            list.len()
        },
        last_of(list, n)[i] == list[list.len() - last_of(list, n).len() + i],
{
}

// Names of files.

/// Joining gives the second path where it is absolute, and otherwise puts it behind the first,
/// with one separator between them.
pub proof fn law_joining_paths(base: Seq<char>, p: Seq<char>)
    ensures
        p.len() > 0 && p[0] == '/' ==> joined_path(base, p) == p,
        !(p.len() > 0 && p[0] == '/') && base.len() == 0 ==> joined_path(base, p) == p,
        !(p.len() > 0 && p[0] == '/') && base.len() > 0 && base.last() == '/' ==> joined_path(
            base,
            p,
        ) == base + p,
        !(p.len() > 0 && p[0] == '/') && base.len() > 0 && base.last() != '/' ==> joined_path(
            base,
            p,
        ) == base + seq!['/'] + p,
{
    assert(seq![] + p =~= p);
    if base.len() == 0 {
        assert(base + p =~= p);
    }
}

/// Whether a text can be the name of a file.
pub open spec fn is_plain_name(name: Seq<char>) -> bool {
    name.len() > 0 && !name.contains('/') && name != seq!['.'] && name != seq!['.', '.']
}

/// Whether a directory is written without a separator or a dot that means nothing at its end.
pub open spec fn is_plain_dir(dir: Seq<char>) -> bool {
    dir.len() > 0 && dir.last() != '/' && !(dir.len() >= 2 && dir.last() == '.' && dir[dir.len()
        - 2] == '/')
}

proof fn lemma_joined_is_trimmed(dir: Seq<char>, name: Seq<char>)
    requires
        is_plain_name(name),
    ensures
        trimmed_path(dir + seq!['/'] + name) == dir + seq!['/'] + name,
{
    let p = dir + seq!['/'] + name;
    assert(p.last() == name.last());
    assert(name.contains(name[name.len() - 1]));
    if name.len() == 1 {
        assert(name =~= seq![name[0]]);
        if name[0] == '.' {
            assert(name =~= seq!['.']);
        }
    } else {
        assert(p[p.len() - 2] == name[name.len() - 2]);
        assert(name.contains(name[name.len() - 2]));
    }
}

/// A file in a directory has that directory as its parent and its name as its last part.
pub proof fn law_joined_path_comes_apart(dir: Seq<char>, name: Seq<char>)
    requires
        is_plain_name(name),
        is_plain_dir(dir),
    ensures
        parent_path(joined_path(dir, name)) == Some(dir),
        file_name(joined_path(dir, name)) == Some(name),
        parent_path(name) == Some(Seq::<char>::empty()),
        file_name(name) == Some(name),
{
    assert(name[0] != '/') by {
        assert(name.contains(name[0]));
    }
    let p = dir + seq!['/'] + name;
    assert(joined_path(dir, name) == p);
    lemma_joined_is_trimmed(dir, name);
    lemma_last_at_is(dir, '/', name);
    let d = dir + seq!['/'];
    assert(p.take(dir.len() as int + 1) =~= d);
    assert(p.skip(dir.len() as int + 1) =~= name);
    assert(d.drop_last() =~= dir);
    assert(trimmed_path(d) == trimmed_path(dir));
    assert(trimmed_path(dir) == dir);
    assert(p[dir.len() as int] == '/');
    assert(p.len() >= 2);
    assert(trimmed_path(name) == name) by {
        assert(name.contains(name[name.len() - 1]));
        if name.len() >= 2 {
            assert(name.contains(name[name.len() - 2]));
        }
    }
    assert(name != seq!['/']) by {
        assert(name[0] != '/');
    }
}

/// A file is written beside the one that it is to replace, under a name of its own.
pub proof fn law_temporary_file_is_a_sibling(dir: Seq<char>, name: Seq<char>, pid: nat)
    requires
        is_plain_name(name),
        is_plain_dir(dir),
    ensures
        temp_path(joined_path(dir, name), pid) == dir + seq!['/'] + (name + "."@ + decimal_text(pid)
            + ".tmp"@),
        temp_path(joined_path(dir, name), pid) != joined_path(dir, name),
{
    law_joined_path_comes_apart(dir, name);
    let other = name + "."@ + decimal_text(pid) + ".tmp"@;
    assert(other[0] == name[0]);
    assert(name.contains(name[0]));
    assert(joined_path(dir, other) == dir + seq!['/'] + other);
    reveal_strlit(".tmp");
    reveal_strlit(".");
    assert(joined_path(dir, name).len() == dir.len() + 1 + name.len());
    assert((dir + seq!['/'] + other).len() > dir.len() + 1 + name.len());
}

// References to variables.

/// A name has the value that the environment gives it, and otherwise the manifest's own.
pub proof fn law_environment_overrides_variables(
    env: Seq<(Seq<char>, Seq<char>)>,
    vars: Seq<(Seq<char>, Seq<char>)>,
    name: Seq<char>,
)
    ensures
        value_of(env, "ARTZAIN_VAR_"@ + uppercased(name)) is Some ==> resolved(env, vars, name)
            == value_of(env, "ARTZAIN_VAR_"@ + uppercased(name)),
        value_of(env, "ARTZAIN_VAR_"@ + uppercased(name)) is None ==> resolved(env, vars, name)
            == value_of(vars, name),
{
}

/// A reference that nothing ends is a fault, and a dollar sign that begins no reference stands for
/// itself.
pub proof fn law_open_references_and_plain_dollars(
    rest: Seq<char>,
    look: spec_fn(Seq<char>) -> Option<Seq<char>>,
)
    ensures
        !rest.contains('}') ==> interpolated(seq!['$', '{'] + rest, 0, look) == Err::<
            Seq<char>,
            Fault,
        >(Fault::Unterminated),
        interpolated(seq!['$'], 0, look) == Ok::<Seq<char>, Fault>(seq!['$']),
{
    let s = seq!['$', '{'] + rest;
    lemma_first_at(s, '}', 2);
    if !rest.contains('}') {
        match first_at(s, '}', 2) {
            Some(i) => {
                assert(s[i] == rest[i - 2]);
                assert(rest.contains(rest[i - 2]));
            },
            None => {},
        }
    }
    let t = seq!['$'];
    assert(interpolated(t, 1, look) == Ok::<Seq<char>, Fault>(seq![]));
    assert(seq!['$'] + seq![] =~= seq!['$']);
}

/// The directory of a manifest is the one that its file is in, and the current one for a bare
/// name.
pub proof fn law_directory_of_a_manifest(dir: Seq<char>, name: Seq<char>)
    requires
        is_plain_name(name),
        is_plain_dir(dir),
    ensures
        base_dir_path(dir + seq!['/'] + name) == dir,
        base_dir_path(name) == "."@,
{
    law_joined_path_comes_apart(dir, name);
    assert(name.contains(name[0]));
    assert(joined_path(dir, name) == dir + seq!['/'] + name);
}

/// A table counts only if all its values are strings; then it counts whole.
pub proof fn law_tables_of_strings_only(list: Seq<(Seq<char>, Option<Seq<char>>)>, i: int)
    requires
        0 <= i < list.len(),
    ensures
        list[i].1 is None ==> string_table(Some(list)).len() == 0,
        (forall|k: int| 0 <= k < list.len() ==> (#[trigger] list[k]).1 is Some) ==> string_table(
            Some(list),
        ).len() == list.len() && string_table(Some(list))[i] == (list[i].0, list[i].1->0),
        string_table(None).len() == 0,
{
}

/// The process numbers that are read from a list are those of the lines that hold a number and
/// nothing else but white space around it.
pub proof fn law_numbers_are_read_line_by_line(list: Seq<Seq<char>>, n: int, x: i32)
    requires
        0 <= n <= list.len(),
    ensures
        numbers_in(list, n).contains(x) <==> exists|i: int|
            0 <= i < n && signed_number(trimmed(#[trigger] list[i])) == Some(x as int),
        numbers_in(list, n).len() <= n,
    decreases n,
{
    if n > 0 {
        law_numbers_are_read_line_by_line(list, n - 1, x);
        let before = numbers_in(list, n - 1);
        let after = numbers_in(list, n);
        lemma_signed_range(trimmed(list[n - 1]));
        if after.contains(x) {
            let k = choose|k: int| 0 <= k < after.len() && after[k] == x;
            if k < before.len() {
                assert(before[k] == x);
            } else {
                assert(signed_number(trimmed(list[n - 1])) == Some(x as int));
            }
        }
        if before.contains(x) {
            let k = choose|k: int| 0 <= k < before.len() && before[k] == x;
            assert(after[k] == x);
        }
        if signed_number(trimmed(list[n - 1])) == Some(x as int) {
            assert(after[before.len() as int] == x);
        }
    }
}

proof fn lemma_signed_range(s: Seq<char>)
    ensures
        signed_number(s) matches Some(n) ==> -0x8000_0000 <= n <= 0x7fff_ffff,
{
}

/// White space is the tab, the breaks of lines and pages, the blank, and the other spaces and
/// separators that are named as such; nothing else is.
pub proof fn law_white_space(c: char)
    ensures
        is_space(c) <==> c == '\t' || c == '\n' || c == '\u{b}' || c == '\u{c}' || c == '\r' || c
            == ' ' || c == '\u{85}' || c == '\u{a0}' || c == '\u{1680}' || ('\u{2000}' <= c
            && c <= '\u{200a}') || c == '\u{2028}' || c == '\u{2029}' || c == '\u{202f}' || c
            == '\u{205f}' || c == '\u{3000}',
{
}

/// A padded text begins with the text, goes on with blanks only, and is as wide as asked for, or
/// as the text where that is wider.
pub proof fn law_padding_adds_blanks(s: Seq<char>, width: nat, i: int)
    requires
        0 <= i < padded(s, width).len(),
    ensures
        padded(s, width).len() == if s.len() < width {
            width
        } else {
            s.len()
        },
        padded(s, width)[i] == if i < s.len() {
            s[i]
        } else {
            ' '
        },
{
}

/// Joined texts stand in their order with the separator between each two.
pub proof fn law_joined_in_order(parts: Seq<Seq<char>>, sep: Seq<char>, last: Seq<char>)
    ensures
        joined(seq![], sep).len() == 0,
        joined(seq![last], sep) == last,
        parts.len() > 0 ==> joined(parts.push(last), sep) == joined(parts, sep) + sep + last,
{
    assert(parts.push(last).drop_last() =~= parts);
}

// The test server.

/// The path that is asked for is the second word of the first line of a request.
pub proof fn law_requested_path_is_the_second_word(
    method: Seq<char>,
    path: Seq<char>,
    version: Seq<char>,
    rest: Seq<char>,
)
    requires
        method.len() > 0,
        path.len() > 0,
        forall|i: int| 0 <= i < method.len() ==> !is_space(#[trigger] method[i]),
        forall|i: int| 0 <= i < path.len() ==> !is_space(#[trigger] path[i]),
        forall|i: int| 0 <= i < version.len() ==> !is_space(#[trigger] version[i]),
    ensures
        requested_path(
            method + seq![' '] + path + seq![' '] + version + seq!['\r', '\n'] + rest,
        ) == path,
{
    let tail = seq![' '] + version;
    let line = method + (seq![' '] + (path + tail));
    let text = method + seq![' '] + path + seq![' '] + version + seq!['\r', '\n'] + rest;
    let with_cr = line.push('\r');
    assert(text =~= with_cr + seq!['\n'] + rest);
    assert forall|i: int| 0 <= i < with_cr.len() implies with_cr[i] != '\n' by {
        let a = method.len() as int;
        let b = path.len() as int;
        if i < a {
            assert(with_cr[i] == method[i]);
        } else if i > a && i <= a + b {
            assert(with_cr[i] == path[i - a - 1]);
        } else if i > a + b + 1 && i < line.len() {
            assert(with_cr[i] == version[i - a - b - 2]);
        }
    }
    law_lines_end_at_line_breaks(with_cr, rest);
    assert(with_cr.drop_last() =~= line);
    assert(lines(text)[0] == line);
    law_words_end_at_white_space(method, seq![' '] + (path + tail));
    law_white_space_makes_no_word(' ', path + tail);
    law_words_end_at_white_space(path, tail);
    assert(words(line)[1] == path);
}

/// The test server is ready exactly from the given time on, or at once, and healthy exactly until
/// the given time, or for good.
pub proof fn law_test_server_keeps_its_times(
    uptime: u64,
    ready_after: Option<u64>,
    live_fail_after: Option<u64>,
)
    ensures
        answer("/__ready"@, uptime, ready_after, live_fail_after) == if ready_after is None
            || ready_after->0 <= uptime {
            Content::Ready
        } else {
            Content::NotReady
        },
        answer("/__health"@, uptime, ready_after, live_fail_after) == if live_fail_after is None
            || uptime < live_fail_after->0 {
            Content::Healthy
        } else {
            Content::Unhealthy
        },
{
    reveal_strlit("/__ready");
    reveal_strlit("/__health");
    assert("/__ready"@.len() == 8 && "/__health"@.len() == 9);
}

/// A path is told from another by whether it is absolute and by its parts: separators that stand
/// twice, and parts that are a single dot, make no part.
pub proof fn law_parts_of_a_path(first: Seq<char>, rest: Seq<char>)
    requires
        !first.contains('/'),
    ensures
        path_names(first + seq!['/'] + rest) == (if first.len() == 0 || first == "."@ {
            Seq::<Seq<char>>::empty()
        } else {
            seq![first]
        }) + path_names(rest),
        path_names(first) == if first.len() == 0 || first == "."@ {
            Seq::<Seq<char>>::empty()
        } else {
            seq![first]
        },
        path_parts(first + seq!['/'] + rest).0 == (first.len() == 0),
        path_parts(first + seq!['/'] + rest).1 == (first == "."@),
        !path_parts(first).0,
{
    let p = first + seq!['/'] + rest;
    lemma_first_at(p, '/', 0);
    lemma_first_at(first, '/', 0);
    assert(p[first.len() as int] == '/');
    match first_at(p, '/', 0) {
        Some(i) => {
            if i < first.len() {
                assert(p[i] == first[i]);
                assert(first.contains(first[i]));
            }
        },
        None => {},
    }
    match first_at(first, '/', 0) {
        Some(i) => {
            assert(first.contains(first[i]));
        },
        None => {},
    }
    assert(p.take(first.len() as int) =~= first);
    assert(p.skip(first.len() as int + 1) =~= rest);
    if first.len() > 0 {
        assert(p[0] == first[0]);
        assert(first.contains(first[0]));
    }
}

/// What a limit of the system is read as: the fourth word of the first line that begins with its
/// name and has so many; nothing where there is no such line.
pub proof fn law_limit_is_the_fourth_word(list: Seq<Seq<char>>, label: Seq<char>, from: int, i: int)
    requires
        0 <= from,
        forall|k: int|
            from <= k < list.len() && k < i ==> !label.is_prefix_of(#[trigger] list[k]) || words(
                list[k],
            ).len() < 4,
    ensures
        from <= i < list.len() && label.is_prefix_of(list[i]) && words(list[i]).len() >= 4
            ==> labelled_value(list, label, from) == words(list[i])[3],
        i >= list.len() ==> labelled_value(list, label, from).len() == 0,
    decreases list.len() - from,
{
    if from < list.len() && from < i {
        assert(!label.is_prefix_of(list[from]) || words(list[from]).len() < 4);
        law_limit_is_the_fourth_word(list, label, from + 1, i);
    }
}

} // verus!
