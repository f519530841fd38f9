//! What a manifest means, stated over the names and numbers that are written in it: which apps
//! run, in what order they start and stop, which checks are made, and which manifests are
//! accepted.

use crate::checks::{
    answered, is_needed, names_check, needed_checks, unreachable_message, unreachable_messages,
};
use crate::fleet::Instance;
use crate::graph::{
    depends, first_unknown, is_app, is_walk, law_start_order, law_start_order_iff_no_cycle,
    lemma_last_named, node, on_cycle, placed, placed_dependencies, pulled_in, selection,
    start_order, start_order_upto,
};
use crate::manifest::{App, Check, Manifest};
use crate::order::{is_stable_order, key_before};
use crate::reconcile::{reload_fault, selection_to_keep, watched, Reconciler};
use crate::teardown::{law_dependents_stop_first, rank_in, teardown_keys};
use crate::validate::{
    account_problems, app_name_among, app_problems, app_section, check_collides, check_needs_target,
    check_problems, check_section, dependencies_section, dependency_problems, dependency_section,
    duplicate_app, known_name, last_port_end, listed, on_system, owner_among, platform_problems,
    port_claimed_twice, port_overflow, port_problem, port_section, problems, system_section,
    unknown_account, unknown_dependency, window_problems, window_section, zero_replicas, Account,
};
use vstd::prelude::*;

verus! {

// Who depends on whom.

/// Whether an app names another among what it depends on.
pub open spec fn needs(apps: Seq<App>, i: int, j: int) -> bool {
    &&& 0 <= i < apps.len()
    &&& 0 <= j < apps.len()
    &&& exists|k: int|
        0 <= k < apps[i].depends_on@.len() && (#[trigger] apps[i].depends_on@[k])@ == apps[j].name@
}

/// Whether a name is that of an app.
pub open spec fn is_app_name(apps: Seq<App>, name: Seq<char>) -> bool {
    exists|a: int| 0 <= a < apps.len() && (#[trigger] apps[a]).name@ == name
}

proof fn lemma_is_app_name(apps: Seq<App>, name: Seq<char>)
    ensures
        node(apps, name) is Some <==> is_app_name(apps, name),
        node(apps, name) matches Some(i) ==> 0 <= i < apps.len() && apps[i].name@ == name,
{
    lemma_last_named(apps, name, apps.len() as int);
    if is_app_name(apps, name) {
        let a = choose|a: int| 0 <= a < apps.len() && (#[trigger] apps[a]).name@ == name;
        assert(apps[a].name@ == name);
    }
}

proof fn lemma_node_is(m: Manifest, a: int)
    requires
        m.names_distinct(),
        0 <= a < m.apps@.len(),
    ensures
        node(m.apps@, m.apps@[a].name@) == Some(a),
{
    lemma_last_named(m.apps@, m.apps@[a].name@, m.apps@.len() as int);
    let b = node(m.apps@, m.apps@[a].name@)->0;
    assert(m.apps@[a].name@ == m.apps@[b].name@);
    if a < b {
        assert(m.apps@[a].name@ != m.apps@[b].name@);
    } else if b < a {
        assert(m.apps@[b].name@ != m.apps@[a].name@);
    }
}

proof fn lemma_needs(m: Manifest, i: int, j: int)
    requires
        m.names_distinct(),
    ensures
        depends(m.apps@, i, j) <==> needs(m.apps@, i, j),
{
    let apps = m.apps@;
    if depends(apps, i, j) {
        let k = choose|k: int|
            0 <= k < apps[i].depends_on@.len() && node(
                apps,
                (#[trigger] apps[i].depends_on@[k])@,
            ) == Some(j);
        lemma_is_app_name(apps, apps[i].depends_on@[k]@);
        assert(apps[i].depends_on@[k]@ == apps[j].name@);
    }
    if needs(apps, i, j) {
        let k = choose|k: int|
            0 <= k < apps[i].depends_on@.len() && (#[trigger] apps[i].depends_on@[k])@
                == apps[j].name@;
        lemma_node_is(m, j);
        assert(node(apps, apps[i].depends_on@[k]@) == Some(j));
    }
}

/// The start order holds every app once, and every app behind all those that it names among what
/// it depends on.
pub proof fn law_apps_start_behind_what_they_need(m: Manifest)
    requires
        m.names_distinct(),
        start_order(m.apps@) is Ok,
    ensures
        ({
            let order = start_order(m.apps@)->Ok_0;
            &&& order.len() == m.apps@.len()
            &&& order.no_duplicates()
            &&& forall|a: int| 0 <= a < m.apps@.len() ==> #[trigger] order.contains(a)
            &&& forall|p: int| 0 <= p < order.len() ==> 0 <= #[trigger] order[p] < m.apps@.len()
            &&& forall|p: int, q: int|
                0 <= p < order.len() && 0 <= q < order.len() && #[trigger] needs(
                    m.apps@,
                    order[p],
                    order[q],
                ) ==> q < p
        }),
{
    law_start_order(m);
    let apps = m.apps@;
    let order = start_order(apps)->Ok_0;
    assert forall|a: int| 0 <= a < apps.len() implies #[trigger] order.contains(a) by {
        lemma_node_is(m, a);
        assert(apps[a].name@ == apps[a].name@);
    }
    assert forall|p: int, q: int|
        0 <= p < order.len() && 0 <= q < order.len() && #[trigger] needs(
            apps,
            order[p],
            order[q],
        ) implies q < p by {
        lemma_needs(m, order[p], order[q]);
        let r = choose|r: int| 0 <= r < p && #[trigger] order[r] == order[q];
        assert(order[r] == order[q]);
    }
    lemma_permutation_len(order, apps.len());
}

proof fn lemma_permutation_len(s: Seq<int>, n: nat)
    requires
        s.no_duplicates(),
        forall|p: int| 0 <= p < s.len() ==> 0 <= #[trigger] s[p] < n,
        forall|a: int| 0 <= a < n ==> #[trigger] s.contains(a),
    ensures
        s.len() == n,
    decreases n,
{
    if n == 0 {
        if s.len() > 0 {
            assert(0 <= s[0] < n);
        }
    } else {
        let a = n - 1;
        assert(s.contains(a));
        let p = choose|p: int| 0 <= p < s.len() && s[p] == a;
        let t = s.remove(p);
        assert forall|x: int, y: int| 0 <= x < t.len() && 0 <= y < t.len() && x != y implies t[x]
            != t[y] by {
            let u = if x < p {
                x
            } else {
                x + 1
            };
            let v = if y < p {
                y
            } else {
                y + 1
            };
            assert(t[x] == s[u] && t[y] == s[v]);
        }
        assert forall|x: int| 0 <= x < t.len() implies 0 <= #[trigger] t[x] < n - 1 by {
            let u = if x < p {
                x
            } else {
                x + 1
            };
            assert(t[x] == s[u]);
            assert(s[u] != s[p]);
        }
        assert forall|b: int| 0 <= b < n - 1 implies #[trigger] t.contains(b) by {
            assert(s.contains(b));
            let q = choose|q: int| 0 <= q < s.len() && s[q] == b;
            if q < p {
                assert(t[q] == b);
            } else {
                assert(t[q - 1] == b);
            }
        }
        lemma_permutation_len(t, (n - 1) as nat);
    }
}

/// There is no start order exactly where some app needs itself, over however many others: the one
/// that is then named is such an app.
pub proof fn law_no_order_without_a_circle(m: Manifest)
    requires
        m.names_distinct(),
    ensures
        start_order(m.apps@) is Err ==> exists|walk: Seq<int>| #[trigger]
            needs_in_turn(m.apps@, walk) && walk.len() >= 2 && walk[0]
                == start_order(m.apps@)->Err_0 && walk.last() == walk[0],
        start_order(m.apps@) is Ok ==> forall|walk: Seq<int>|
            walk.len() >= 2 && #[trigger] needs_in_turn(m.apps@, walk) ==> walk.last() != walk[0],
{
    law_start_order_iff_no_cycle(m);
    let apps = m.apps@;
    if start_order(apps) is Err {
        let i = start_order(apps)->Err_0;
        let walk = choose|walk: Seq<int>|
            walk.len() >= 2 && #[trigger] is_walk(apps, walk) && walk[0] == i && walk.last() == i;
        lemma_walks(m, walk);
        assert(needs_in_turn(apps, walk));
    } else {
        assert forall|walk: Seq<int>|
            walk.len() >= 2 && #[trigger] needs_in_turn(apps, walk) implies walk.last()
            != walk[0] by {
            lemma_walks(m, walk);
            if walk.last() == walk[0] {
                assert(on_cycle(apps, walk[0]));
            }
        }
    }
}

/// Whether each app of a list needs the next one.
pub open spec fn needs_in_turn(apps: Seq<App>, walk: Seq<int>) -> bool {
    forall|k: int, l: int|
        0 <= k && l == k + 1 && l < walk.len() ==> needs(
            apps,
            #[trigger] walk[k],
            #[trigger] walk[l],
        )
}

proof fn lemma_walks(m: Manifest, walk: Seq<int>)
    requires
        m.names_distinct(),
    ensures
        is_walk(m.apps@, walk) <==> needs_in_turn(m.apps@, walk),
{
    let apps = m.apps@;
    if is_walk(apps, walk) {
        assert forall|k: int, l: int| 0 <= k && l == k + 1 && l < walk.len() implies needs(
            apps,
            #[trigger] walk[k],
            #[trigger] walk[l],
        ) by {
            assert(depends(apps, walk[k], walk[k + 1]));
            lemma_needs(m, walk[k], walk[l]);
        }
    }
    if needs_in_turn(apps, walk) {
        assert forall|k: int| 0 <= k < walk.len() - 1 implies depends(
            apps,
            #[trigger] walk[k],
            walk[k + 1],
        ) by {
            lemma_needs(m, walk[k], walk[k + 1]);
        }
    }
}

// Which apps run.

/// Without a choice all apps run.
pub proof fn law_all_apps_without_a_choice(m: Manifest, name: Seq<char>)
    ensures
        selection(m.apps@, None).contains(name) <==> is_app_name(m.apps@, name),
{
    lemma_is_app_name(m.apps@, name);
}

/// A choice holds what was chosen and all that those apps need, and what those need in turn.
pub proof fn law_choice_is_closed(m: Manifest, only: Seq<Seq<char>>)
    requires
        m.names_distinct(),
    ensures
        ({
            let s = selection(m.apps@, Some(only));
            &&& forall|k: int|
                0 <= k < only.len() && is_app_name(m.apps@, only[k]) ==> s.contains(
                    #[trigger] only[k],
                )
            &&& forall|i: int, j: int|
                #[trigger] needs(m.apps@, i, j) && s.contains(m.apps@[i].name@) ==> s.contains(
                    m.apps@[j].name@,
                )
            &&& forall|x: Seq<char>| #[trigger] s.contains(x) ==> is_app_name(m.apps@, x)
        }),
{
    let apps = m.apps@;
    let s = selection(apps, Some(only));
    assert forall|k: int| 0 <= k < only.len() && is_app_name(apps, only[k]) implies s.contains(
        #[trigger] only[k],
    ) by {
        lemma_is_app_name(apps, only[k]);
        let i = node(apps, only[k])->0;
        let walk = seq![i];
        assert(is_walk(apps, walk));
        assert(pulled_in(apps, only, i)) by {
            assert(walk.last() == i && node(apps, only[k]) == Some(walk[0]));
        }
    }
    assert forall|i: int, j: int| #[trigger] needs(apps, i, j) && s.contains(
        apps[i].name@,
    ) implies s.contains(apps[j].name@) by {
        lemma_needs(m, i, j);
        lemma_node_is(m, i);
        lemma_node_is(m, j);
        let (walk, k) = choose|walk: Seq<int>, k: int|
            walk.len() >= 1 && #[trigger] is_walk(apps, walk) && walk.last() == i && 0 <= k
                < only.len() && node(apps, #[trigger] only[k]) == Some(walk[0]);
        let more = walk.push(j);
        assert forall|l: int| 0 <= l < more.len() - 1 implies depends(
            apps,
            #[trigger] more[l],
            more[l + 1],
        ) by {
            if l < walk.len() - 1 {
                assert(more[l] == walk[l] && more[l + 1] == walk[l + 1]);
                assert(depends(apps, walk[l], walk[l + 1]));
            }
        }
        assert(is_walk(apps, more));
        assert(more.last() == j && node(apps, only[k]) == Some(more[0]));
    }
    assert forall|x: Seq<char>| #[trigger] s.contains(x) implies is_app_name(apps, x) by {
        lemma_is_app_name(apps, x);
    }
}

/// A choice holds nothing else: every set that holds what was chosen, and with each app what it
/// needs, holds all of it.
pub proof fn law_choice_is_least(
    m: Manifest,
    only: Seq<Seq<char>>,
    s: Set<Seq<char>>,
    x: Seq<char>,
)
    requires
        m.names_distinct(),
        forall|k: int| 0 <= k < only.len() ==> s.contains(#[trigger] only[k]),
        forall|i: int, j: int|
            #[trigger] needs(m.apps@, i, j) && s.contains(m.apps@[i].name@) ==> s.contains(
                m.apps@[j].name@,
            ),
        selection(m.apps@, Some(only)).contains(x),
    ensures
        s.contains(x),
{
    let apps = m.apps@;
    lemma_is_app_name(apps, x);
    let i = node(apps, x)->0;
    let (walk, k) = choose|walk: Seq<int>, k: int|
        walk.len() >= 1 && #[trigger] is_walk(apps, walk) && walk.last() == i && 0 <= k
            < only.len() && node(apps, #[trigger] only[k]) == Some(walk[0]);
    lemma_is_app_name(apps, only[k]);
    lemma_holds_walk(m, s, walk, walk.len() - 1);
}

proof fn lemma_holds_walk(m: Manifest, s: Set<Seq<char>>, walk: Seq<int>, n: int)
    requires
        m.names_distinct(),
        0 <= n < walk.len(),
        is_walk(m.apps@, walk),
        s.contains(m.apps@[walk[0]].name@),
        forall|i: int, j: int|
            #[trigger] needs(m.apps@, i, j) && s.contains(m.apps@[i].name@) ==> s.contains(
                m.apps@[j].name@,
            ),
    ensures
        s.contains(m.apps@[walk[n]].name@),
    decreases n,
{
    if n > 0 {
        lemma_holds_walk(m, s, walk, n - 1);
        assert(depends(m.apps@, walk[n - 1], walk[n - 1 + 1]));
        lemma_needs(m, walk[n - 1], walk[n]);
    }
}

/// A choice is refused exactly for a name that no app has, the first such name.
pub proof fn law_unknown_choice_is_the_first(apps: Seq<App>, only: Seq<Seq<char>>, from: int)
    requires
        0 <= from,
    ensures
        match first_unknown(apps, only, from) {
            Some(k) => from <= k < only.len() && !is_app_name(apps, only[k]) && forall|j: int|
                from <= j < k ==> is_app_name(apps, #[trigger] only[j]),
            None => forall|j: int|
                from <= j < only.len() ==> is_app_name(apps, #[trigger] only[j]),
        },
    decreases only.len() - from,
{
    if from < only.len() {
        lemma_is_app_name(apps, only[from]);
        if is_app(apps, only[from]) {
            law_unknown_choice_is_the_first(apps, only, from + 1);
        }
    }
}

// Which manifests are accepted.

/// A manifest is accepted exactly if no two of its apps and checks share a name, every app has a
/// replica, every port of a replica is below the end of the port range, no port is that of
/// replicas of two apps, every check has something to ask, and every name that an app depends on
/// is that of an app or a check.
pub proof fn law_valid_in_plain_terms(m: Manifest)
    ensures
        m.valid() <==> {
            &&& forall|i: int, j: int|
                0 <= i < m.apps@.len() && 0 <= j < m.apps@.len() && i != j ==> (
                #[trigger] m.apps@[i]).name@ != (#[trigger] m.apps@[j]).name@
            &&& forall|i: int, j: int|
                0 <= i < m.checks@.len() && 0 <= j < m.checks@.len() && i != j ==> (
                #[trigger] m.checks@[i]).name@ != (#[trigger] m.checks@[j]).name@
            &&& forall|i: int, j: int|
                0 <= i < m.apps@.len() && 0 <= j < m.checks@.len() ==> (
                #[trigger] m.apps@[i]).name@ != (#[trigger] m.checks@[j]).name@
            &&& forall|i: int|
                0 <= i < m.apps@.len() ==> (#[trigger] m.apps@[i]).replicas != 0 && m.apps@[i].port
                    + m.apps@[i].replicas - 1 <= 65_535
            &&& forall|i: int, j: int|
                0 <= i < j < m.apps@.len() ==> (#[trigger] m.apps@[i]).port + m.apps@[i].replicas
                    <= (#[trigger] m.apps@[j]).port || m.apps@[j].port + m.apps@[j].replicas
                    <= m.apps@[i].port
            &&& forall|i: int|
                0 <= i < m.checks@.len() ==> !((#[trigger] m.checks@[i]).tcp is None
                    && m.checks@[i].http is None)
            &&& forall|i: int, d: int|
                0 <= i < m.apps@.len() && 0 <= d < m.apps@[i].depends_on@.len() ==> is_name(
                    m,
                    (#[trigger] m.apps@[i].depends_on@[d])@,
                )
        },
{
    assert forall|i: int, d: int|
        0 <= i < m.apps@.len() && 0 <= d < m.apps@[i].depends_on@.len() implies is_name(
        m,
        (#[trigger] m.apps@[i].depends_on@[d])@,
    ) == known_name(m.apps@, m.checks@, m.apps@[i].depends_on@[d]@) by {}
    if m.valid() {
        assert forall|i: int, j: int|
            0 <= i < m.apps@.len() && 0 <= j < m.apps@.len() && i != j implies (
        #[trigger] m.apps@[i]).name@ != (#[trigger] m.apps@[j]).name@ by {
            if i < j {
                assert(m.apps@[i].name@ != m.apps@[j].name@);
            } else {
                assert(m.apps@[j].name@ != m.apps@[i].name@);
            }
        }
        assert forall|i: int, j: int| 0 <= i < j < m.apps@.len() implies (
        #[trigger] m.apps@[i]).port + m.apps@[i].replicas <= (#[trigger] m.apps@[j]).port
            || m.apps@[j].port + m.apps@[j].replicas <= m.apps@[i].port by {
            let p = if m.apps@[i].port >= m.apps@[j].port {
                m.apps@[i].port as int
            } else {
                m.apps@[j].port as int
            };
            assert(m.apps@[i].replicas >= 1 && m.apps@[j].replicas >= 1);
            if m.apps@[i].claims(p) {
                assert(!m.apps@[j].claims(p));
            }
        }
    }
}

/// Whether a name is that of an app or a check.
pub open spec fn is_name(m: Manifest, name: Seq<char>) -> bool {
    (exists|a: int| 0 <= a < m.apps@.len() && (#[trigger] m.apps@[a]).name@ == name) || (exists|
        c: int,
    |
        0 <= c < m.checks@.len() && (#[trigger] m.checks@[c]).name@ == name)
}

// Which checks are made.

/// A check is made before the start exactly if a selected app depends on it or no app does, each
/// once, in the order of the manifest.
pub proof fn law_checks_made(m: Manifest, selected: Set<Seq<char>>, n: int)
    requires
        0 <= n <= m.checks@.len() <= usize::MAX,
    ensures
        ({
            let made = needed_checks(m, selected, n);
            &&& forall|k: int, l: int|
                0 <= k < l < made.len() ==> #[trigger] made[k] < #[trigger] made[l]
            &&& forall|k: int| 0 <= k < made.len() ==> 0 <= #[trigger] made[k] < n
            &&& forall|c: int|
                0 <= c < n ==> (made.contains(c as usize) <==> (asked_by(
                    m,
                    selected,
                    (#[trigger] m.checks@[c]).name@,
                ) || !asked_by_any(m, m.checks@[c].name@)))
        }),
    decreases n,
{
    if n > 0 {
        law_checks_made(m, selected, n - 1);
        let before = needed_checks(m, selected, n - 1);
        let made = needed_checks(m, selected, n);
        lemma_asked(m, selected, n - 1);
        assert forall|c: int| 0 <= c < n implies (made.contains(c as usize) <==> (asked_by(
            m,
            selected,
            (#[trigger] m.checks@[c]).name@,
        ) || !asked_by_any(m, m.checks@[c].name@))) by {
            if c < n - 1 {
                if before.contains(c as usize) {
                    let k = choose|k: int| 0 <= k < before.len() && before[k] == c as usize;
                    assert(made[k] == c as usize);
                }
                if made.contains(c as usize) {
                    let k = choose|k: int| 0 <= k < made.len() && made[k] == c as usize;
                    assert(before[k] == c as usize);
                }
            } else if is_needed(m, selected, c) {
                assert(made[before.len() as int] == c as usize);
            } else {
                if made.contains(c as usize) {
                    let k = choose|k: int| 0 <= k < made.len() && made[k] == c as usize;
                    assert(before[k] == c as usize);
                }
            }
        }
    }
}

/// Whether a selected app has a name among what it depends on.
pub open spec fn asked_by(m: Manifest, selected: Set<Seq<char>>, name: Seq<char>) -> bool {
    exists|a: int, d: int|
        0 <= a < m.apps@.len() && 0 <= d < m.apps@[a].depends_on@.len() && (
        #[trigger] m.apps@[a].depends_on@[d])@ == name && selected.contains(m.apps@[a].name@)
}

/// Whether any app has a name among what it depends on.
pub open spec fn asked_by_any(m: Manifest, name: Seq<char>) -> bool {
    exists|a: int, d: int|
        0 <= a < m.apps@.len() && 0 <= d < m.apps@[a].depends_on@.len() && (
        #[trigger] m.apps@[a].depends_on@[d])@ == name
}

proof fn lemma_asked(m: Manifest, selected: Set<Seq<char>>, c: int)
    requires
        0 <= c < m.checks@.len(),
    ensures
        is_needed(m, selected, c) <==> asked_by(m, selected, m.checks@[c].name@) || !asked_by_any(
            m,
            m.checks@[c].name@,
        ),
{
    let name = m.checks@[c].name@;
    if asked_by(m, selected, name) {
        let (a, d) = choose|a: int, d: int|
            0 <= a < m.apps@.len() && 0 <= d < m.apps@[a].depends_on@.len() && (
            #[trigger] m.apps@[a].depends_on@[d])@ == name && selected.contains(m.apps@[a].name@);
        assert(names_check(m.apps@[a], name));
        assert(selected.contains(m.apps@[a].name@));
    }
    if !asked_by_any(m, name) {
        assert forall|a: int| 0 <= a < m.apps@.len() implies !names_check(
            #[trigger] m.apps@[a],
            name,
        ) by {
            if names_check(m.apps@[a], name) {
                let d = choose|d: int|
                    0 <= d < m.apps@[a].depends_on@.len() && (
                    #[trigger] m.apps@[a].depends_on@[d])@ == name;
                assert(m.apps@[a].depends_on@[d]@ == name);
            }
        }
    }
    if is_needed(m, selected, c) {
        if exists|a: int|
            0 <= a < m.apps@.len() && selected.contains((#[trigger] m.apps@[a]).name@)
                && names_check(m.apps@[a], name) {
            let a = choose|a: int|
                0 <= a < m.apps@.len() && selected.contains((#[trigger] m.apps@[a]).name@)
                    && names_check(m.apps@[a], name);
            let d = choose|d: int|
                0 <= d < m.apps@[a].depends_on@.len() && (#[trigger] m.apps@[a].depends_on@[d])@
                    == name;
            assert(m.apps@[a].depends_on@[d]@ == name);
        } else {
            if asked_by_any(m, name) {
                let (a, d) = choose|a: int, d: int|
                    0 <= a < m.apps@.len() && 0 <= d < m.apps@[a].depends_on@.len() && (
                    #[trigger] m.apps@[a].depends_on@[d])@ == name;
                assert(names_check(m.apps@[a], name));
            }
        }
    }
}

/// The record of the checks that were made holds for each the answer that it gave, and of no other
/// name anything; the report on those that failed has a line for each, in order.
pub proof fn law_answers_are_recorded(
    checks: Seq<Check>,
    made: Seq<usize>,
    answers: Seq<bool>,
    n: int,
)
    requires
        0 <= n <= made.len(),
        answers.len() == made.len(),
        forall|k: int| 0 <= k < made.len() ==> 0 <= #[trigger] made[k] < checks.len(),
        forall|k: int, l: int|
            0 <= k < l < made.len() ==> checks[#[trigger] made[k] as int].name@
                != checks[#[trigger] made[l] as int].name@,
    ensures
        ({
            let r = answered(checks, made, answers, n);
            &&& forall|k: int|
                0 <= k < n ==> r.dom().contains(checks[#[trigger] made[k] as int].name@)
                    && r[checks[made[k] as int].name@] == answers[k]
            &&& forall|x: Seq<char>| #[trigger]
                r.dom().contains(x) ==> exists|k: int|
                    0 <= k < n && checks[#[trigger] made[k] as int].name@ == x
        }),
        unreachable_messages(checks, made, answers, n).len() <= n,
        forall|k: int|
            0 <= k < n && !#[trigger] answers[k] ==> unreachable_messages(
                checks,
                made,
                answers,
                n,
            ).contains(unreachable_message(checks[made[k] as int])),
        (forall|k: int| 0 <= k < n ==> #[trigger] answers[k]) ==> unreachable_messages(
            checks,
            made,
            answers,
            n,
        ).len() == 0,
    decreases n,
{
    if n > 0 {
        law_answers_are_recorded(checks, made, answers, n - 1);
        let before = unreachable_messages(checks, made, answers, n - 1);
        let after = unreachable_messages(checks, made, answers, n);
        assert forall|k: int| 0 <= k < n && !#[trigger] answers[k] implies after.contains(
            unreachable_message(checks[made[k] as int]),
        ) by {
            let msg = unreachable_message(checks[made[k] as int]);
            if k == n - 1 {
                assert(after[before.len() as int] == msg);
            } else {
                assert(before.contains(msg));
                let x = choose|x: int| 0 <= x < before.len() && before[x] == msg;
                assert(after[x] == msg);
            }
        }
        let r = answered(checks, made, answers, n);
        let q = answered(checks, made, answers, n - 1);
        assert forall|k: int| 0 <= k < n implies r.dom().contains(
            checks[#[trigger] made[k] as int].name@,
        ) && r[checks[made[k] as int].name@] == answers[k] by {
            if k < n - 1 {
                assert(checks[made[k] as int].name@ != checks[made[n - 1] as int].name@);
            }
        }
        assert forall|x: Seq<char>| #[trigger] r.dom().contains(x) implies exists|k: int|
            0 <= k < n && checks[#[trigger] made[k] as int].name@ == x by {
            if q.dom().contains(x) {
                let k = choose|k: int|
                    0 <= k < n - 1 && checks[#[trigger] made[k] as int].name@ == x;
                assert(checks[made[k] as int].name@ == x);
            } else {
                assert(checks[made[n - 1] as int].name@ == x);
            }
        }
    }
}

/// Every fault of a manifest is reported: each name that is used twice, each app without replicas
/// or with ports past the end of the range, each port that two apps have, each check with nothing
/// to ask, and each name to depend on that nothing has.
pub proof fn law_every_fault_is_reported(
    apps: Seq<App>,
    checks: Seq<Check>,
    found: Seq<Account>,
    unix: bool,
    i: int,
    j: int,
)
    ensures
        ({
            let all = problems(apps, checks, found, unix);
            &&& 0 <= j < i < apps.len() && apps[i].name@ == apps[j].name@ ==> all.contains(
                duplicate_app(apps[i].name@),
            )
            &&& 0 <= i < apps.len() && apps[i].replicas == 0 ==> all.contains(
                zero_replicas(apps[i].name@),
            )
            &&& 0 <= i < apps.len() && apps[i].port + apps[i].replicas > 65_536 ==> all.contains(
                port_overflow(apps[i].name@, apps[i].port as nat, apps[i].replicas as nat),
            )
            &&& 0 <= i < checks.len() && 0 <= j < apps.len() && checks[i].name@ == apps[j].name@
                ==> all.contains(check_collides(checks[i].name@))
            &&& 0 <= j < i < checks.len() && checks[i].name@ == checks[j].name@ ==> all.contains(
                check_collides(checks[i].name@),
            )
            &&& 0 <= i < checks.len() && checks[i].tcp is None && checks[i].http is None
                ==> all.contains(check_needs_target(checks[i].name@))
            &&& 0 <= i < apps.len() && 0 <= j < apps[i].depends_on@.len() && (forall|a: int|
                0 <= a < apps.len() ==> (#[trigger] apps[a]).name@ != apps[i].depends_on@[j]@) && (
            forall|c: int|
                0 <= c < checks.len() ==> (#[trigger] checks[c]).name@ != apps[i].depends_on@[j]@)
                ==> all.contains(unknown_dependency(apps[i].name@, apps[i].depends_on@[j]@))
        }),
{
    let all = problems(apps, checks, found, unix);
    let one = listed(app_section(apps), apps.len() as int);
    let two = listed(check_section(apps, checks), checks.len() as int);
    let three = listed(window_section(apps), apps.len() as int);
    let four = listed(dependencies_section(apps, checks), apps.len() as int);
    let five = listed(system_section(apps, found, unix), apps.len() as int);
    lemma_parts(one, two, three, four, five);
    if 0 <= i < apps.len() {
        let part = app_problems(apps, i);
        let name = apps[i].name@;
        lemma_listed_holds(app_section(apps), apps.len() as int, i);
        assert(app_section(apps)(i) == part);
        if 0 <= j < i && name == apps[j].name@ {
            assert(apps[j].name@ == name);
            assert(part[0] == duplicate_app(name));
            assert(part.contains(duplicate_app(name)));
            assert(one.contains(duplicate_app(name)));
        }
        if apps[i].replicas == 0 {
            let at = if app_name_among(apps, i, name) {
                1int
            } else {
                0
            };
            assert(part[at] == zero_replicas(name));
            assert(part.contains(zero_replicas(name)));
            assert(one.contains(zero_replicas(name)));
        }
        if apps[i].port + apps[i].replicas > 65_536 {
            let msg = port_overflow(name, apps[i].port as nat, apps[i].replicas as nat);
            assert(part[part.len() - 1] == msg);
            assert(part.contains(msg));
            assert(one.contains(msg));
        }
        if 0 <= j < apps[i].depends_on@.len() && !known_name(
            apps,
            checks,
            apps[i].depends_on@[j]@,
        ) {
            let section = dependency_section(apps, checks, i);
            let msg = unknown_dependency(name, apps[i].depends_on@[j]@);
            lemma_listed_holds(section, apps[i].depends_on@.len() as int, j);
            assert(section(j)[0] == msg);
            assert(section(j).contains(msg));
            lemma_listed_holds(dependencies_section(apps, checks), apps.len() as int, i);
            let all_of = dependency_problems(apps, checks, i);
            assert(dependencies_section(apps, checks)(i) == all_of);
            assert(all_of.contains(msg));
            assert(four.contains(msg));
        }
    }
    if 0 <= i < checks.len() {
        let part = check_problems(apps, checks, i);
        let name = checks[i].name@;
        lemma_listed_holds(check_section(apps, checks), checks.len() as int, i);
        assert(check_section(apps, checks)(i) == part);
        if 0 <= j < apps.len() && name == apps[j].name@ {
            assert(apps[j].name@ == name);
            assert(part[0] == check_collides(name));
            assert(part.contains(check_collides(name)));
            assert(two.contains(check_collides(name)));
        }
        if 0 <= j < i && name == checks[j].name@ {
            assert(checks[j].name@ == name);
            assert(part[0] == check_collides(name));
            assert(part.contains(check_collides(name)));
            assert(two.contains(check_collides(name)));
        }
        if checks[i].tcp is None && checks[i].http is None {
            assert(part[part.len() - 1] == check_needs_target(name));
            assert(part.contains(check_needs_target(name)));
            assert(two.contains(check_needs_target(name)));
        }
    }
}

proof fn lemma_listed_holds(f: spec_fn(int) -> Seq<Seq<char>>, n: int, i: int)
    requires
        0 <= i < n,
    ensures
        forall|x: Seq<char>| #[trigger] f(i).contains(x) ==> listed(f, n).contains(x),
    decreases n,
{
    let all = listed(f, n);
    let head = listed(f, n - 1);
    if i < n - 1 {
        lemma_listed_holds(f, n - 1, i);
    }
    assert forall|x: Seq<char>| #[trigger] f(i).contains(x) implies all.contains(x) by {
        if i < n - 1 {
            let k = choose|k: int| 0 <= k < head.len() && head[k] == x;
            assert(all[k] == x);
        } else {
            let part = f(i);
            let k = choose|k: int| 0 <= k < part.len() && part[k] == x;
            assert(all[head.len() + k] == x);
        }
    }
}

proof fn lemma_holds_either(a: Seq<Seq<char>>, b: Seq<Seq<char>>)
    ensures
        forall|x: Seq<char>| #[trigger] a.contains(x) ==> (a + b).contains(x),
        forall|x: Seq<char>| #[trigger] b.contains(x) ==> (a + b).contains(x),
{
    assert forall|x: Seq<char>| #[trigger] a.contains(x) implies (a + b).contains(x) by {
        let k = choose|k: int| 0 <= k < a.len() && a[k] == x;
        assert((a + b)[k] == x);
    }
    assert forall|x: Seq<char>| #[trigger] b.contains(x) implies (a + b).contains(x) by {
        let k = choose|k: int| 0 <= k < b.len() && b[k] == x;
        assert((a + b)[a.len() + k] == x);
    }
}

proof fn lemma_parts(
    a: Seq<Seq<char>>,
    b: Seq<Seq<char>>,
    c: Seq<Seq<char>>,
    d: Seq<Seq<char>>,
    e: Seq<Seq<char>>,
)
    ensures
        forall|x: Seq<char>| #[trigger] a.contains(x) ==> (a + b + c + d + e).contains(x),
        forall|x: Seq<char>| #[trigger] b.contains(x) ==> (a + b + c + d + e).contains(x),
        forall|x: Seq<char>| #[trigger] c.contains(x) ==> (a + b + c + d + e).contains(x),
        forall|x: Seq<char>| #[trigger] d.contains(x) ==> (a + b + c + d + e).contains(x),
        forall|x: Seq<char>| #[trigger] e.contains(x) ==> (a + b + c + d + e).contains(x),
{
    lemma_holds_either(a, b);
    lemma_holds_either(a + b, c);
    lemma_holds_either(a + b + c, d);
    lemma_holds_either(a + b + c + d, e);
}

/// A port that two apps have is reported with both their names: the later app's and that of the
/// last one before it that has the port.
pub proof fn law_shared_port_is_reported(
    apps: Seq<App>,
    checks: Seq<Check>,
    found: Seq<Account>,
    unix: bool,
    i: int,
    j: int,
    p: int,
)
    requires
        0 <= j < i < apps.len(),
        apps[i].port <= p < apps[i].port + apps[i].replicas,
        apps[j].port <= p < apps[j].port + apps[j].replicas,
        p <= 65_535,
        forall|k: int|
            j < k < i ==> !((#[trigger] apps[k]).port <= p < apps[k].port + apps[k].replicas),
    ensures
        problems(apps, checks, found, unix).contains(
            port_claimed_twice(p as nat, apps[j].name@, apps[i].name@),
        ),
{
    let one = listed(app_section(apps), apps.len() as int);
    let two = listed(check_section(apps, checks), checks.len() as int);
    let three = listed(window_section(apps), apps.len() as int);
    let four = listed(dependencies_section(apps, checks), apps.len() as int);
    let five = listed(system_section(apps, found, unix), apps.len() as int);
    lemma_parts(one, two, three, four, five);
    lemma_owner_is_last(apps, i, p, j);
    let k = p - apps[i].port;
    let section = port_section(apps, i);
    let msg = port_claimed_twice(p as nat, apps[j].name@, apps[i].name@);
    assert(section(k) == port_problem(apps, i, p));
    assert(section(k)[0] == msg);
    assert(section(k).contains(msg));
    lemma_listed_holds(section, last_port_end(apps[i]) - apps[i].port, k);
    let part = window_problems(apps, i);
    assert(window_section(apps)(i) == part);
    assert(part.contains(msg));
    lemma_listed_holds(window_section(apps), apps.len() as int, i);
    assert(three.contains(msg));
}

proof fn lemma_owner_is_last(apps: Seq<App>, n: int, p: int, j: int)
    requires
        0 <= j < n <= apps.len(),
        apps[j].port <= p < apps[j].port + apps[j].replicas,
        forall|k: int|
            j < k < n ==> !((#[trigger] apps[k]).port <= p < apps[k].port + apps[k].replicas),
    ensures
        owner_among(apps, n, p) == Some(j),
    decreases n,
{
    if j < n - 1 {
        assert(!apps[n - 1].claims(p));
        lemma_owner_is_last(apps, n - 1, p, j);
    }
}

/// On Unix an app runs as the user that it names, in the group that it names, or else in that
/// user's own; without either it runs as it was started.
pub proof fn law_accounts(a: App, acc: Account)
    ensures
        ({
            let r = on_system(a, acc, true);
            &&& a.user is Some && acc.user is Some ==> r.uid == Some((acc.user->0).0)
            &&& a.user is None ==> r.uid is None
            &&& a.group is Some && acc.group is Some ==> r.gid == Some(acc.group->0)
            &&& a.group is None && a.user is Some && acc.user is Some ==> r.gid == Some(
                (acc.user->0).1,
            )
            &&& a.group is None && a.user is None ==> r.gid is None
            &&& r == (App { uid: r.uid, gid: r.gid, ..a })
        }),
        on_system(a, acc, false) == a,
{
}

// Stopping in order.

/// When everything is stopped, all instances of an app come before all instances of any app that
/// it needs.
pub proof fn law_apps_stop_before_what_they_need(
    m: Manifest,
    insts: Seq<Instance>,
    order: Seq<usize>,
    i: int,
    j: int,
    a: int,
    b: int,
)
    requires
        m.names_distinct(),
        start_order(m.apps@) is Ok,
        needs(m.apps@, i, j),
        m.apps@.len() <= usize::MAX,
        is_stable_order(teardown_keys(m.apps@, insts), insts.len() as int, order),
        0 <= a < order.len(),
        0 <= b < order.len(),
        insts[order[a] as int].app@ == m.apps@[i].name@,
        insts[order[b] as int].app@ == m.apps@[j].name@,
    ensures
        a < b,
{
    lemma_needs(m, i, j);
    law_dependents_stop_first(m, insts, order, i, j, a, b);
}

// Loading the manifest anew.

/// The manifest is loaded anew exactly when its time is another one than that of the loaded
/// manifest for the second time in a row; then that time counts as the loaded one's. A change
/// that is taken back is forgotten.
pub proof fn law_manifest_is_loaded_once_settled(
    read: Option<i128>,
    seen: Option<i128>,
    current: Option<i128>,
)
    ensures
        watched(read, seen, current).2 <==> current != read && current == seen,
        watched(read, seen, current).0 == if watched(read, seen, current).2 {
            current
        } else {
            read
        },
        watched(read, seen, current).1 == if current != read && current != seen {
            current
        } else {
            None
        },
{
}

/// A loaded manifest is taken exactly if it has apps and, where not all apps were selected, still
/// has every one that was.
pub proof fn law_loaded_manifest_is_taken(r: Reconciler, m: Manifest)
    requires
        m.names_distinct(),
    ensures
        reload_fault(r, m) is None <==> {
            &&& m.apps@.len() > 0
            &&& r.selected.listed().len() == r.manifest.apps@.len() || (r.selected.listed().len()
                > 0 && forall|k: int|
                0 <= k < r.selected.listed().len() ==> is_app_name(
                    m.apps@,
                    #[trigger] r.selected.listed()[k],
                ))
        },
{
    let list = r.selected.listed();
    law_unknown_choice_is_the_first(m.apps@, list, 0);
    match first_unknown(m.apps@, list, 0) {
        Some(k) => {
            assert(!is_app_name(m.apps@, list[k]));
        },
        None => {},
    }
}

/// Where all apps run, all apps of a loaded manifest run; where some were chosen, those go on
/// running with what they need.
pub proof fn law_choice_outlives_loading(r: Reconciler, m: Manifest, name: Seq<char>)
    requires
        m.names_distinct(),
    ensures
        ({
            let s = selection(m.apps@, selection_to_keep(r.manifest, r.selected));
            let all = r.selected.listed().len() == r.manifest.apps@.len();
            &&& all ==> (s.contains(name) <==> is_app_name(m.apps@, name))
            &&& !all && r.selected.listed().contains(name) && is_app_name(m.apps@, name)
                ==> s.contains(name)
        }),
{
    let list = r.selected.listed();
    law_all_apps_without_a_choice(m, name);
    law_choice_is_closed(m, list);
    if list.contains(name) {
        let k = choose|k: int| 0 <= k < list.len() && list[k] == name;
        assert(list[k] == name);
    }
}

/// Apps that need no other start in the order of the manifest.
pub proof fn law_independent_apps_start_as_listed(m: Manifest, n: int)
    requires
        m.names_distinct(),
        0 <= n <= m.apps@.len(),
        forall|i: int, j: int| !#[trigger] needs(m.apps@, i, j),
    ensures
        start_order_upto(m.apps@, n) == Ok::<Seq<int>, int>(Seq::new(n as nat, |k: int| k)),
        n == m.apps@.len() ==> start_order(m.apps@) == Ok::<Seq<int>, int>(
            Seq::new(n as nat, |k: int| k),
        ),
    decreases n,
{
    let apps = m.apps@;
    if n > 0 {
        law_independent_apps_start_as_listed(m, n - 1);
        let i = n - 1;
        let done = Seq::new(i as nat, |k: int| k);
        lemma_node_is(m, i);
        assert(!done.contains(i));
        lemma_nothing_to_place(m, i, 0, done, seq![i]);
        assert(Seq::<int>::empty().push(i) =~= seq![i]);
        assert(placed(apps, i, done, Seq::empty()) == Ok::<Seq<int>, int>(done.push(i)));
        assert(done.push(i) =~= Seq::new(n as nat, |k: int| k));
    } else {
        assert(Seq::<int>::empty() =~= Seq::new(0, |k: int| k));
    }
}

proof fn lemma_nothing_to_place(m: Manifest, i: int, k: int, done: Seq<int>, path: Seq<int>)
    requires
        m.names_distinct(),
        0 <= i < m.apps@.len(),
        0 <= k <= m.apps@[i].depends_on@.len(),
        forall|j: int| !#[trigger] needs(m.apps@, i, j),
    ensures
        placed_dependencies(m.apps@, i, k, done, path) == Ok::<Seq<int>, int>(done),
    decreases m.apps@[i].depends_on@.len() - k,
{
    let apps = m.apps@;
    if k < apps[i].depends_on@.len() {
        let name = apps[i].depends_on@[k]@;
        lemma_is_app_name(apps, name);
        if node(apps, name) is Some {
            let j = node(apps, name)->0;
            assert(apps[i].depends_on@[k]@ == apps[j].name@);
            assert(needs(apps, i, j));
        }
        lemma_nothing_to_place(m, i, k + 1, done, path);
    }
}

/// When everything is stopped, instances of apps that the manifest no longer has come first.
pub proof fn law_forgotten_apps_stop_first(
    m: Manifest,
    insts: Seq<Instance>,
    order: Seq<usize>,
    a: int,
    b: int,
)
    requires
        m.names_distinct(),
        m.apps@.len() < usize::MAX,
        start_order(m.apps@) is Ok,
        is_stable_order(teardown_keys(m.apps@, insts), insts.len() as int, order),
        0 <= a < order.len(),
        0 <= b < order.len(),
        !is_app_name(m.apps@, insts[order[a] as int].app@),
        is_app_name(m.apps@, insts[order[b] as int].app@),
    ensures
        a < b,
{
    let apps = m.apps@;
    let start = start_order(apps)->Ok_0;
    law_apps_start_behind_what_they_need(m);
    let x = insts[order[a] as int].app@;
    let y = insts[order[b] as int].app@;
    lemma_no_rank(apps, start, x, 0);
    lemma_some_rank(apps, start, y, 0);
    let keys = teardown_keys(apps, insts);
    assert(keys[order[a] as int] == 0);
    assert(keys[order[b] as int] > 0);
    if b < a {
        assert(key_before(keys, order[b], order[a]));
    }
}

proof fn lemma_no_rank(apps: Seq<App>, order: Seq<int>, name: Seq<char>, from: int)
    requires
        0 <= from,
        !is_app_name(apps, name),
        forall|p: int| 0 <= p < order.len() ==> 0 <= #[trigger] order[p] < apps.len(),
    ensures
        rank_in(apps, order, name, from) is None,
    decreases order.len() - from,
{
    if from < order.len() {
        assert(0 <= order[from] < apps.len());
        assert(apps[order[from]].name@ != name);
        lemma_no_rank(apps, order, name, from + 1);
    }
}

proof fn lemma_some_rank(apps: Seq<App>, order: Seq<int>, name: Seq<char>, from: int)
    requires
        0 <= from <= order.len(),
        is_app_name(apps, name),
        order.no_duplicates(),
        forall|a: int| 0 <= a < apps.len() ==> #[trigger] order.contains(a),
        forall|p: int| 0 <= p < from ==> apps[#[trigger] order[p]].name@ != name,
    ensures
        rank_in(apps, order, name, from) is Some,
        rank_in(apps, order, name, from)->0 < order.len(),
        rank_in(apps, order, name, from)->0 >= 0,
    decreases order.len() - from,
{
    if from < order.len() {
        if apps[order[from]].name@ != name {
            lemma_some_rank(apps, order, name, from + 1);
        }
    } else {
        let a = choose|a: int| 0 <= a < apps.len() && (#[trigger] apps[a]).name@ == name;
        assert(order.contains(a));
        let p = choose|p: int| 0 <= p < order.len() && order[p] == a;
        assert(apps[order[p]].name@ != name);
    }
}

/// On Unix each user and each group that the system does not know is reported, under the name of
/// the app that asks for it; elsewhere asking for either, or for limits, is.
pub proof fn law_missing_accounts_are_reported(
    apps: Seq<App>,
    checks: Seq<Check>,
    found: Seq<Account>,
    i: int,
)
    requires
        0 <= i < apps.len(),
    ensures
        apps[i].user is Some && found[i].user is None ==> problems(
            apps,
            checks,
            found,
            true,
        ).contains(unknown_account(apps[i].name@, "user"@, apps[i].user->0@)),
        apps[i].group is Some && found[i].group is None ==> problems(
            apps,
            checks,
            found,
            true,
        ).contains(unknown_account(apps[i].name@, "group"@, apps[i].group->0@)),
        apps[i].user is Some || apps[i].group is Some || apps[i].limits is Some ==> problems(
            apps,
            checks,
            found,
            false,
        ).len() > 0,
{
    let one = listed(app_section(apps), apps.len() as int);
    let two = listed(check_section(apps, checks), checks.len() as int);
    let three = listed(window_section(apps), apps.len() as int);
    let four = listed(dependencies_section(apps, checks), apps.len() as int);
    let five = listed(system_section(apps, found, true), apps.len() as int);
    lemma_parts(one, two, three, four, five);
    lemma_listed_holds(system_section(apps, found, true), apps.len() as int, i);
    let part = account_problems(apps, found, i);
    assert(system_section(apps, found, true)(i) == part);
    if apps[i].user is Some && found[i].user is None {
        let msg = unknown_account(apps[i].name@, "user"@, apps[i].user->0@);
        assert(part[0] == msg);
        assert(part.contains(msg));
        assert(five.contains(msg));
    }
    if apps[i].group is Some && found[i].group is None {
        let msg = unknown_account(apps[i].name@, "group"@, apps[i].group->0@);
        assert(part[part.len() - 1] == msg);
        assert(part.contains(msg));
        assert(five.contains(msg));
    }
    let other = listed(system_section(apps, found, false), apps.len() as int);
    lemma_listed_holds(system_section(apps, found, false), apps.len() as int, i);
    let rest = platform_problems(apps, i);
    assert(system_section(apps, found, false)(i) == rest);
    if apps[i].user is Some || apps[i].group is Some || apps[i].limits is Some {
        assert(rest.contains(rest[0]));
        assert(other.contains(rest[0]));
        assert(other.len() > 0);
    }
}

} // verus!
