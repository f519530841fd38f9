//! The external checks: where each is made, and what their answers mean before anything starts.

use crate::manifest::{App, Check, Manifest};
use crate::order::{NameMap, NameSet};
use crate::probe::{host_and_path, split_host_path};
use crate::text::{join2, join3, join_list, joined, str_eq, texts};
use vstd::prelude::*;

verus! {

/// Milliseconds that a check may take.
pub const CHECK_TIMEOUT: u64 = 2_000;

/// How a check is made.
pub enum CheckTarget {
    /// With a TCP connect to a `host:port`.
    Tcp(String),
    /// With a GET of a path at a `host:port`.
    Http(String, String),
}

/// How a check is made; nothing where it names no target. A check with both is made over TCP.
pub fn check_target(check: &Check) -> (r: Option<CheckTarget>)
    ensures
        match (check.tcp, check.http) {
            (Some(addr), _) => r matches Some(CheckTarget::Tcp(a)) && a@ == addr@,
            (None, Some(s)) => r matches Some(CheckTarget::Http(a, p)) && (a@, p@)
                == host_and_path(s@),
            (None, None) => r is None,
        },
{
    match &check.tcp {
        Some(addr) => Some(CheckTarget::Tcp(addr.clone())),
        None => match &check.http {
            Some(s) => {
                let (addr, path) = split_host_path(s.as_str());
                Some(CheckTarget::Http(addr, path))
            },
            None => None,
        },
    }
}

/// What is said of a check that failed.
pub open spec fn unreachable_message(check: Check) -> Seq<char> {
    match check.hint {
        Some(hint) => "`"@ + check.name@ + "` is not reachable — try: "@ + hint@,
        None => "`"@ + check.name@ + "` is not reachable"@,
    }
}

/// Whether an app names a check among what it depends on.
pub open spec fn names_check(app: App, name: Seq<char>) -> bool {
    exists|d: int| 0 <= d < app.depends_on@.len() && (#[trigger] app.depends_on@[d])@ == name
}

/// Whether a check is to be made before anything starts: a selected app depends on it, or no app
/// does, so that it stands in the manifest for its own sake.
pub open spec fn is_needed(m: Manifest, selected: Set<Seq<char>>, c: int) -> bool {
    let name = m.checks@[c].name@;
    ||| exists|a: int|
        0 <= a < m.apps@.len() && selected.contains((#[trigger] m.apps@[a]).name@) && names_check(
            m.apps@[a],
            name,
        )
    ||| forall|a: int| 0 <= a < m.apps@.len() ==> !names_check(#[trigger] m.apps@[a], name)
}

/// Those of the first `n` checks that are to be made, in the order of the manifest.
pub open spec fn needed_checks(m: Manifest, selected: Set<Seq<char>>, n: int) -> Seq<usize>
    decreases n,
{
    if n <= 0 {
        seq![]
    } else if is_needed(m, selected, n - 1) {
        needed_checks(m, selected, n - 1).push((n - 1) as usize)
    } else {
        needed_checks(m, selected, n - 1)
    }
}

fn depends_on_check(app: &App, name: &str) -> (r: bool)
    ensures
        r == names_check(*app, name@),
{
    let mut d: usize = 0;
    while d < app.depends_on.len()
        invariant
            d <= app.depends_on@.len(),
            forall|j: int| 0 <= j < d ==> (#[trigger] app.depends_on@[j])@ != name@,
        decreases app.depends_on@.len() - d,
    {
        if str_eq(app.depends_on[d].as_str(), name) {
            assert(app.depends_on@[d as int]@ == name@);
            return true;
        }
        d += 1;
    }
    false
}

fn needs_check(manifest: &Manifest, selected: &NameSet, c: usize) -> (r: bool)
    requires
        selected.wf(),
        c < manifest.checks@.len(),
    ensures
        r == is_needed(*manifest, selected@, c as int),
{
    let name = manifest.checks[c].name.as_str();
    let mut named = false;
    let mut a: usize = 0;
    while a < manifest.apps.len()
        invariant
            selected.wf(),
            c < manifest.checks@.len(),
            name@ == manifest.checks@[c as int].name@,
            a <= manifest.apps@.len(),
            forall|j: int|
                0 <= j < a ==> !(selected@.contains((#[trigger] manifest.apps@[j]).name@)
                    && names_check(manifest.apps@[j], name@)),
            named <==> exists|j: int|
                0 <= j < a && names_check(#[trigger] manifest.apps@[j], name@),
        decreases manifest.apps@.len() - a,
    {
        let app = &manifest.apps[a];
        if depends_on_check(app, name) {
            assert(names_check(manifest.apps@[a as int], name@));
            if selected.contains(app.name.as_str()) {
                assert(selected@.contains(manifest.apps@[a as int].name@));
                return true;
            }
            named = true;
        }
        a += 1;
    }
    !named
}

proof fn lemma_needed_checks(m: Manifest, selected: Set<Seq<char>>, n: int)
    requires
        0 <= n <= m.checks@.len(),
        m.checks@.len() <= usize::MAX,
    ensures
        needed_checks(m, selected, n).len() <= n,
        forall|k: int|
            0 <= k < needed_checks(m, selected, n).len() ==> 0 <= #[trigger] needed_checks(
                m,
                selected,
                n,
            )[k] < n,
        forall|i: int, j: int|
            0 <= i < j < needed_checks(m, selected, n).len() ==> #[trigger] needed_checks(
                m,
                selected,
                n,
            )[i] < #[trigger] needed_checks(m, selected, n)[j],
        forall|c: usize|
            c < n ==> (#[trigger] needed_checks(m, selected, n).contains(c) <==> is_needed(
                m,
                selected,
                c as int,
            )),
    decreases n,
{
    if n > 0 {
        lemma_needed_checks(m, selected, n - 1);
        let before = needed_checks(m, selected, n - 1);
        let list = needed_checks(m, selected, n);
        assert forall|c: usize| c < n implies (#[trigger] list.contains(c) <==> is_needed(
            m,
            selected,
            c as int,
        )) by {
            if c == n - 1 {
                if is_needed(m, selected, n - 1) {
                    assert(list[before.len() as int] == c);
                }
            } else {
                assert(before.contains(c) <==> is_needed(m, selected, c as int));
                if before.contains(c) {
                    let k = choose|k: int| 0 <= k < before.len() && before[k] == c;
                    assert(list[k] == c);
                }
                if list.contains(c) {
                    let k = choose|k: int| 0 <= k < list.len() && list[k] == c;
                    assert(before[k] == c);
                }
            }
        }
    }
}

/// Where the checks that are to be made before anything starts stand in the manifest: those that
/// a selected app depends on, and those that no app depends on.
pub fn checks_to_verify(manifest: &Manifest, selected: &NameSet) -> (r: Vec<usize>)
    requires
        selected.wf(),
    ensures
        r@ == needed_checks(*manifest, selected@, manifest.checks@.len() as int),
        forall|i: int, j: int| 0 <= i < j < r@.len() ==> #[trigger] r@[i] < #[trigger] r@[j],
        forall|k: int| 0 <= k < r@.len() ==> #[trigger] r@[k] < manifest.checks@.len(),
        forall|c: usize|
            c < manifest.checks@.len() ==> (#[trigger] r@.contains(c) <==> is_needed(
                *manifest,
                selected@,
                c as int,
            )),
{
    let mut out: Vec<usize> = Vec::new();
    let mut c: usize = 0;
    while c < manifest.checks.len()
        invariant
            selected.wf(),
            c <= manifest.checks@.len(),
            out@ == needed_checks(*manifest, selected@, c as int),
        decreases manifest.checks@.len() - c,
    {
        if needs_check(manifest, selected, c) {
            out.push(c);
        }
        c += 1;
    }
    proof {
        lemma_needed_checks(*manifest, selected@, manifest.checks@.len() as int);
    }
    out
}

/// What is said of those among the first `n` checks made that failed.
pub open spec fn unreachable_messages(
    checks: Seq<Check>,
    made: Seq<usize>,
    answers: Seq<bool>,
    n: int,
) -> Seq<Seq<char>>
    decreases n,
{
    if n <= 0 {
        seq![]
    } else if answers[n - 1] {
        unreachable_messages(checks, made, answers, n - 1)
    } else {
        unreachable_messages(checks, made, answers, n - 1).push(
            unreachable_message(checks[made[n - 1] as int]),
        )
    }
}

/// Which of the first `n` checks made answer, by name.
pub open spec fn answered(
    checks: Seq<Check>,
    made: Seq<usize>,
    answers: Seq<bool>,
    n: int,
) -> Map<Seq<char>, bool>
    decreases n,
{
    if n <= 0 {
        Map::empty()
    } else {
        answered(checks, made, answers, n - 1).insert(
            checks[made[n - 1] as int].name@,
            answers[n - 1],
        )
    }
}

/// What the answers to the checks mean, `made` holding where each check that was made stands and
/// `answers` its answer: which of them answer, or, where one does not, what is said of all that do
/// not.
pub fn verify_checks(checks: &Vec<Check>, made: &Vec<usize>, answers: &Vec<bool>) -> (r: Result<
    NameMap<bool>,
    String,
>)
    requires
        forall|k: int| 0 <= k < made@.len() ==> #[trigger] made@[k] < checks@.len(),
        answers@.len() == made@.len(),
    ensures
        match r {
            Ok(map) => {
                &&& forall|k: int| 0 <= k < answers@.len() ==> #[trigger] answers@[k]
                &&& map.wf()
                &&& map@ == answered(checks@, made@, answers@, made@.len() as int)
            },
            Err(e) => {
                &&& exists|k: int| 0 <= k < answers@.len() && !#[trigger] answers@[k]
                &&& e@ == "dependency checks failed:\n  - "@ + joined(
                    unreachable_messages(checks@, made@, answers@, made@.len() as int),
                    "\n  - "@,
                )
            },
        },
{
    let mut map: NameMap<bool> = NameMap::new();
    let mut failures: Vec<String> = Vec::new();
    let mut i: usize = 0;
    assert(texts(failures@) =~= seq![]);
    while i < made.len()
        invariant
            i <= made@.len(),
            answers@.len() == made@.len(),
            forall|k: int| 0 <= k < made@.len() ==> #[trigger] made@[k] < checks@.len(),
            map.wf(),
            map@ == answered(checks@, made@, answers@, i as int),
            texts(failures@) == unreachable_messages(checks@, made@, answers@, i as int),
            failures@.len() == 0 ==> forall|j: int| 0 <= j < i ==> #[trigger] answers@[j],
            failures@.len() > 0 ==> exists|j: int| 0 <= j < i && !#[trigger] answers@[j],
        decreases made@.len() - i,
    {
        let check = &checks[made[i]];
        map.insert(check.name.clone(), answers[i]);
        if !answers[i] {
            let mut m = join3("`", check.name.as_str(), "` is not reachable");
            match &check.hint {
                Some(hint) => {
                    m = join3("`", check.name.as_str(), "` is not reachable — try: ");
                    m.append(hint.as_str());
                },
                None => {},
            }
            let ghost before = failures@;
            failures.push(m);
            assert(texts(failures@) =~= texts(before).push(m@));
            assert(!answers@[i as int]);
        }
        i += 1;
    }
    if failures.len() == 0 {
        Ok(map)
    } else {
        let list = join_list(&failures, "\n  - ");
        Err(join2("dependency checks failed:\n  - ", list.as_str()))
    }
}

/// Whether each check that is to be made answers; `up` says of each check of the manifest whether
/// it does.
pub open spec fn needed_answer(m: Manifest, selected: Set<Seq<char>>, up: spec_fn(int) -> bool) -> bool {
    forall|c: int| 0 <= c < m.checks@.len() && #[trigger] is_needed(m, selected, c) ==> up(c)
}

/// Only what a selected app depends on, or no app does, can keep a cluster from starting: the
/// answers to the checks that are made are all good exactly where every check that is to be made
/// answers, whatever the others do.
pub proof fn law_only_needed_checks_decide(
    m: Manifest,
    selected: Set<Seq<char>>,
    up: spec_fn(int) -> bool,
    answers: Seq<bool>,
)
    requires
        m.checks@.len() <= usize::MAX,
        answers.len() == needed_checks(m, selected, m.checks@.len() as int).len(),
        forall|k: int|
            0 <= k < answers.len() ==> #[trigger] answers[k] == up(
                needed_checks(m, selected, m.checks@.len() as int)[k] as int,
            ),
    ensures
        (forall|k: int| 0 <= k < answers.len() ==> #[trigger] answers[k]) <==> needed_answer(
            m,
            selected,
            up,
        ),
{
    let n = m.checks@.len() as int;
    let made = needed_checks(m, selected, n);
    lemma_needed_checks(m, selected, n);
    if forall|k: int| 0 <= k < answers.len() ==> #[trigger] answers[k] {
        assert forall|c: int| 0 <= c < n && #[trigger] is_needed(m, selected, c) implies up(c) by {
            assert(made.contains(c as usize));
            let k = choose|k: int| 0 <= k < made.len() && made[k] == c as usize;
            assert(answers[k]);
        }
    }
    if needed_answer(m, selected, up) {
        assert forall|k: int| 0 <= k < answers.len() implies #[trigger] answers[k] by {
            assert(made.contains(made[k]));
            assert(is_needed(m, selected, made[k] as int));
        }
    }
}

} // verus!
