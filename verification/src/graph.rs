//! The dependency graph of the apps: the order in which they start, and what a selection of
//! apps pulls in.

use crate::manifest::{App, Manifest};
use crate::order::NameSet;
use crate::text::{join3, str_eq, texts};
use vstd::prelude::*;

verus! {

/// The place of the last app of that name among the first `n`.
pub open spec fn last_named(apps: Seq<App>, name: Seq<char>, n: int) -> Option<int>
    decreases n,
{
    if n <= 0 || n > apps.len() {
        None
    } else if apps[n - 1].name@ == name {
        Some(n - 1)
    } else {
        last_named(apps, name, n - 1)
    }
}

/// The app that a name stands for in the graph.
pub open spec fn node(apps: Seq<App>, name: Seq<char>) -> Option<int> {
    last_named(apps, name, apps.len() as int)
}

pub proof fn lemma_last_named(apps: Seq<App>, name: Seq<char>, n: int)
    requires
        0 <= n <= apps.len(),
    ensures
        match last_named(apps, name, n) {
            Some(i) => 0 <= i < n && apps[i].name@ == name && forall|j: int|
                i < j < n ==> (#[trigger] apps[j]).name@ != name,
            None => forall|j: int| 0 <= j < n ==> (#[trigger] apps[j]).name@ != name,
        },
    decreases n,
{
    if n > 0 && apps[n - 1].name@ != name {
        lemma_last_named(apps, name, n - 1);
    }
}

/// Finds the app that a name stands for.
fn find_node(apps: &Vec<App>, name: &str) -> (r: Option<usize>)
    ensures
        match r {
            Some(i) => node(apps@, name@) == Some(i as int) && i < apps@.len(),
            None => node(apps@, name@) is None,
        },
{
    let mut n: usize = apps.len();
    while n > 0
        invariant
            n <= apps@.len(),
            node(apps@, name@) == last_named(apps@, name@, n as int),
        decreases n,
    {
        if str_eq(apps[n - 1].name.as_str(), name) {
            return Some(n - 1);
        }
        n -= 1;
    }
    None
}

/// Whether app `i` depends on app `j`.
pub open spec fn depends(apps: Seq<App>, i: int, j: int) -> bool {
    &&& 0 <= i < apps.len()
    &&& exists|k: int|
        0 <= k < apps[i].depends_on@.len() && node(
            apps,
            (#[trigger] apps[i].depends_on@[k])@,
        ) == Some(j)
}

/// Whether each app of `walk` depends on the one behind it.
pub open spec fn is_walk(apps: Seq<App>, walk: Seq<int>) -> bool {
    forall|k: int|
        0 <= k < walk.len() - 1 ==> depends(apps, #[trigger] walk[k], walk[k + 1])
}

/// Whether app `i` depends on itself, directly or through others.
pub open spec fn on_cycle(apps: Seq<App>, i: int) -> bool {
    exists|walk: Seq<int>|
        walk.len() >= 2 && #[trigger] is_walk(apps, walk) && walk[0] == i && walk.last() == i
}

/// The list `done` with app `i` behind it, and before it what it depends on that is not listed
/// yet, each thing after its own dependencies. `path` holds the apps that are being placed; an
/// app that is met again while it is being placed is the error.
pub open spec fn placed(apps: Seq<App>, i: int, done: Seq<int>, path: Seq<int>) -> Result<
    Seq<int>,
    int,
>
    decreases apps.len() - path.len(), 0int,
{
    if done.contains(i) {
        Ok(done)
    } else if path.contains(i) || path.len() >= apps.len() {
        Err(i)
    } else {
        match placed_dependencies(apps, i, 0, done, path.push(i)) {
            Ok(d) => Ok(d.push(i)),
            Err(e) => Err(e),
        }
    }
}

/// `done` with the dependencies of app `i` behind it, from the one at `k` on.
pub open spec fn placed_dependencies(
    apps: Seq<App>,
    i: int,
    k: int,
    done: Seq<int>,
    path: Seq<int>,
) -> Result<Seq<int>, int>
    decreases apps.len() - path.len(), apps[i].depends_on@.len() - k + 1,
{
    if k < 0 || k >= apps[i].depends_on@.len() {
        Ok(done)
    } else {
        match node(apps, apps[i].depends_on@[k]@) {
            None => placed_dependencies(apps, i, k + 1, done, path),
            Some(j) => match placed(apps, j, done, path) {
                Ok(d) => placed_dependencies(apps, i, k + 1, d, path),
                Err(e) => Err(e),
            },
        }
    }
}

/// The start order of the first `n` apps: in the order of the manifest, each with what it
/// depends on before it.
pub open spec fn start_order_upto(apps: Seq<App>, n: int) -> Result<Seq<int>, int>
    decreases n,
{
    if n <= 0 {
        Ok(Seq::empty())
    } else {
        match start_order_upto(apps, n - 1) {
            Err(e) => Err(e),
            Ok(done) => match node(apps, apps[n - 1].name@) {
                Some(i) => placed(apps, i, done, Seq::empty()),
                None => Ok(done),
            },
        }
    }
}

/// The start order of all apps.
pub open spec fn start_order(apps: Seq<App>) -> Result<Seq<int>, int> {
    start_order_upto(apps, apps.len() as int)
}

/// Different numbers below `n` are at most `n`.
proof fn lemma_distinct_below(s: Seq<int>, n: nat)
    requires
        s.no_duplicates(),
        forall|k: int| 0 <= k < s.len() ==> 0 <= #[trigger] s[k] < n,
    ensures
        s.len() <= n,
    decreases n,
{
    if n == 0 {
        if s.len() > 0 {
            assert(0 <= s[0] < n);
        }
    } else if s.contains((n - 1) as int) {
        let k = choose|k: int| 0 <= k < s.len() && s[k] == n - 1;
        let t = s.remove(k);
        assert forall|a: int| 0 <= a < t.len() implies 0 <= #[trigger] t[a] < n - 1 by {
            if a < k {
                assert(t[a] == s[a]);
            } else {
                assert(t[a] == s[a + 1]);
            }
        }
        assert forall|a: int, b: int| 0 <= a < t.len() && 0 <= b < t.len() && a != b implies t[a]
            != t[b] by {
            let a2 = if a < k {
                a
            } else {
                a + 1
            };
            let b2 = if b < k {
                b
            } else {
                b + 1
            };
            assert(t[a] == s[a2] && t[b] == s[b2]);
        }
        lemma_distinct_below(t, (n - 1) as nat);
    } else {
        assert forall|a: int| 0 <= a < s.len() implies 0 <= #[trigger] s[a] < n - 1 by {
            assert(s[a] != n - 1);
        }
        lemma_distinct_below(s, (n - 1) as nat);
    }
}

/// Whether a list of apps stands in start order: nothing twice, and everything behind what it
/// depends on.
pub open spec fn in_start_order(apps: Seq<App>, order: Seq<int>) -> bool {
    &&& order.no_duplicates()
    &&& forall|p: int| 0 <= p < order.len() ==> 0 <= #[trigger] order[p] < apps.len()
    &&& forall|p: int, j: int|
        0 <= p < order.len() && #[trigger] depends(apps, order[p], j) ==> exists|q: int|
            0 <= q < p && #[trigger] order[q] == j
}

/// A path of apps that are being placed: each depends on the next, none stands on it twice,
/// and none of them is placed already.
spec fn path_ok(apps: Seq<App>, done: Seq<int>, path: Seq<int>) -> bool {
    &&& path.no_duplicates()
    &&& is_walk(apps, path)
    &&& forall|k: int| 0 <= k < path.len() ==> 0 <= #[trigger] path[k] < apps.len()
    &&& forall|k: int| 0 <= k < path.len() ==> !done.contains(#[trigger] path[k])
}

/// What placing an app gives.
proof fn lemma_placed(apps: Seq<App>, i: int, done: Seq<int>, path: Seq<int>)
    requires
        0 <= i < apps.len(),
        in_start_order(apps, done),
        path_ok(apps, done, path),
        path.len() > 0 ==> depends(apps, path.last(), i),
    ensures
        match placed(apps, i, done, path) {
            Ok(d) => {
                &&& in_start_order(apps, d)
                &&& path_ok(apps, d, path)
                &&& done.is_prefix_of(d)
                &&& d.contains(i)
            },
            Err(e) => on_cycle(apps, e) && 0 <= e < apps.len(),
        },
    decreases apps.len() - path.len(), 0int,
{
    if done.contains(i) {
    } else if path.contains(i) {
        let k = choose|k: int| 0 <= k < path.len() && path[k] == i;
        let walk = path.skip(k).push(i);
        assert(walk[0] == i && walk.last() == i && walk.len() >= 2);
        assert forall|a: int| 0 <= a < walk.len() - 1 implies depends(
            apps,
            #[trigger] walk[a],
            walk[a + 1],
        ) by {
            assert(walk[a] == path[k + a]);
            if a + 1 < walk.len() - 1 {
                assert(walk[a + 1] == path[k + a + 1]);
            } else {
                assert(path[k + a] == path.last());
            }
        }
        assert(is_walk(apps, walk));
    } else {
        let longer = path.push(i);
        lemma_longer_path(apps, i, done, path);
        lemma_placed_dependencies(apps, i, 0, done, longer);
        match placed_dependencies(apps, i, 0, done, longer) {
            Ok(d) => {
                let r = d.push(i);
                assert(longer[path.len() as int] == i);
                assert(!d.contains(i));
                assert(r[d.len() as int] == i);
                assert forall|p: int, j: int|
                    0 <= p < r.len() && #[trigger] depends(apps, r[p], j) implies exists|q: int|
                    0 <= q < p && #[trigger] r[q] == j by {
                    if p < d.len() {
                        assert(r[p] == d[p]);
                        let q = choose|q: int| 0 <= q < p && #[trigger] d[q] == j;
                        assert(r[q] == j);
                    } else {
                        let k = choose|k: int|
                            0 <= k < apps[i].depends_on@.len() && node(
                                apps,
                                (#[trigger] apps[i].depends_on@[k])@,
                            ) == Some(j);
                        assert(d.contains(j));
                        let q = choose|q: int| 0 <= q < d.len() && d[q] == j;
                        assert(r[q] == j);
                    }
                }
                assert forall|a: int, b: int|
                    0 <= a < r.len() && 0 <= b < r.len() && a != b implies r[a] != r[b] by {
                    if a < d.len() && b < d.len() {
                        assert(d[a] != d[b]);
                    } else if a < d.len() {
                        assert(d.contains(d[a]));
                    } else {
                        assert(d.contains(d[b]));
                    }
                }
                assert forall|p: int| 0 <= p < r.len() implies 0 <= #[trigger] r[p]
                    < apps.len() by {
                    if p < d.len() {
                        assert(r[p] == d[p]);
                    }
                }
                assert forall|k: int| 0 <= k < path.len() implies !r.contains(
                    #[trigger] path[k],
                ) by {
                    assert(longer[k] == path[k]);
                    assert(!d.contains(longer[k]));
                    if r.contains(path[k]) {
                        let q = choose|q: int| 0 <= q < r.len() && r[q] == path[k];
                        if q < d.len() {
                            assert(d[q] == path[k]);
                        } else {
                            assert(path.contains(i));
                        }
                    }
                }
                assert(r.subrange(0, done.len() as int) =~= d.subrange(0, done.len() as int));
            },
            Err(_) => {},
        }
    }
}

/// What placing the dependencies of an app gives.
proof fn lemma_placed_dependencies(
    apps: Seq<App>,
    i: int,
    k: int,
    done: Seq<int>,
    path: Seq<int>,
)
    requires
        0 <= i < apps.len(),
        0 <= k <= apps[i].depends_on@.len(),
        in_start_order(apps, done),
        path_ok(apps, done, path),
        path.len() > 0,
        path.last() == i,
    ensures
        match placed_dependencies(apps, i, k, done, path) {
            Ok(d) => {
                &&& in_start_order(apps, d)
                &&& path_ok(apps, d, path)
                &&& done.is_prefix_of(d)
                &&& forall|x: int, j: int|
                    k <= x < apps[i].depends_on@.len() && node(
                        apps,
                        (#[trigger] apps[i].depends_on@[x])@,
                    ) == Some(j) ==> #[trigger] d.contains(j)
            },
            Err(e) => on_cycle(apps, e) && 0 <= e < apps.len(),
        },
    decreases apps.len() - path.len(), apps[i].depends_on@.len() - k + 1,
{
    if k < apps[i].depends_on@.len() {
        let name = apps[i].depends_on@[k]@;
        match node(apps, name) {
            None => {
                lemma_placed_dependencies(apps, i, k + 1, done, path);
            },
            Some(j) => {
                lemma_last_named(apps, name, apps.len() as int);
                assert(depends(apps, i, j));
                lemma_placed(apps, j, done, path);
                match placed(apps, j, done, path) {
                    Ok(d) => {
                        lemma_placed_dependencies(apps, i, k + 1, d, path);
                        match placed_dependencies(apps, i, k + 1, d, path) {
                            Ok(r) => {
                                assert(done.is_prefix_of(r)) by {
                                    assert(r.subrange(0, done.len() as int) =~= d.subrange(
                                        0,
                                        done.len() as int,
                                    )) by {
                                        assert(r.subrange(0, d.len() as int) == d);
                                        assert forall|a: int| 0 <= a < done.len() implies r[a]
                                            == d[a] by {
                                            assert(r.subrange(0, d.len() as int)[a] == d[a]);
                                        }
                                    }
                                }
                                assert(r.contains(j)) by {
                                    let q = choose|q: int| 0 <= q < d.len() && d[q] == j;
                                    assert(r.subrange(0, d.len() as int)[q] == d[q]);
                                    assert(r[q] == j);
                                }
                            },
                            Err(_) => {},
                        }
                    },
                    Err(_) => {},
                }
            },
        }
    }
}

/// A list of indices as numbers.
pub open spec fn ints(s: Seq<usize>) -> Seq<int> {
    Seq::new(s.len(), |i: int| s[i] as int)
}

/// Whether the marks say which apps are placed (2), which are being placed (1) and which are
/// neither (0).
spec fn marks_ok(apps: Seq<App>, marks: Seq<u8>, done: Seq<int>, path: Seq<int>) -> bool {
    &&& marks.len() == apps.len()
    &&& forall|j: int|
        0 <= j < marks.len() ==> ((#[trigger] marks[j] == 2) <==> done.contains(j)) && ((marks[j]
            == 1) <==> path.contains(j))
}

/// Places app `i` behind what it depends on.
fn place(
    apps: &Vec<App>,
    i: usize,
    marks: &mut Vec<u8>,
    order: &mut Vec<usize>,
    Ghost(path): Ghost<Seq<int>>,
) -> (r: Result<(), usize>)
    requires
        i < apps@.len(),
        in_start_order(apps@, ints(old(order)@)),
        path_ok(apps@, ints(old(order)@), path),
        path.len() > 0 ==> depends(apps@, path.last(), i as int),
        marks_ok(apps@, old(marks)@, ints(old(order)@), path),
    ensures
        match r {
            Ok(_) => placed(apps@, i as int, ints(old(order)@), path) == Ok::<Seq<int>, int>(
                ints(final(order)@),
            ) && marks_ok(apps@, final(marks)@, ints(final(order)@), path),
            Err(e) => placed(apps@, i as int, ints(old(order)@), path) == Err::<Seq<int>, int>(
                e as int,
            ) && e < apps@.len(),
        },
    decreases apps@.len() - path.len(),
{
    let ghost done = ints(order@);
    proof {
        lemma_placed(apps@, i as int, done, path);
    }
    if marks[i] == 2 {
        return Ok(());
    }
    if marks[i] == 1 {
        return Err(i);
    }
    let ghost longer = path.push(i as int);
    proof {
        lemma_longer_path(apps@, i as int, done, path);
    }
    marks.set(i, 1);
    proof {
        assert forall|j: int| 0 <= j < marks@.len() implies ((#[trigger] marks@[j] == 2)
            <==> done.contains(j)) && ((marks@[j] == 1) <==> longer.contains(j)) by {
            if j == i {
                assert(longer[path.len() as int] == j);
            } else {
                if path.contains(j) {
                    let k = choose|k: int| 0 <= k < path.len() && path[k] == j;
                    assert(longer[k] == j);
                }
                if longer.contains(j) {
                    let k = choose|k: int| 0 <= k < longer.len() && longer[k] == j;
                    assert(path[k] == j);
                }
            }
        }
    }
    let mut k: usize = 0;
    while k < apps[i].depends_on.len()
        invariant
            i < apps@.len(),
            k <= apps@[i as int].depends_on@.len(),
            done == ints(old(order)@),
            longer == path.push(i as int),
            longer.len() <= apps@.len(),
            in_start_order(apps@, ints(order@)),
            path_ok(apps@, ints(order@), longer),
            marks_ok(apps@, marks@, ints(order@), longer),
            placed_dependencies(apps@, i as int, 0, done, longer) == placed_dependencies(
                apps@,
                i as int,
                k as int,
                ints(order@),
                longer,
            ),
            placed(apps@, i as int, done, path) == match placed_dependencies(
                apps@,
                i as int,
                0,
                done,
                longer,
            ) {
                Ok(d) => Ok(d.push(i as int)),
                Err(e) => Err(e),
            },
        decreases apps@[i as int].depends_on@.len() - k,
    {
        match find_node(apps, apps[i].depends_on[k].as_str()) {
            None => {},
            Some(j) => {
                proof {
                    assert(node(apps@, apps@[i as int].depends_on@[k as int]@) == Some(j as int));
                    assert(depends(apps@, i as int, j as int));
                    assert(longer.last() == i);
                    lemma_placed(apps@, j as int, ints(order@), longer);
                }
                let ghost before = ints(order@);
                match place(apps, j, marks, order, Ghost(longer)) {
                    Ok(_) => {},
                    Err(e) => {
                        assert(placed_dependencies(apps@, i as int, k as int, before, longer)
                            == Err::<Seq<int>, int>(e as int));
                        return Err(e);
                    },
                }
            },
        }
        k += 1;
    }
    let ghost d = ints(order@);
    marks.set(i, 2);
    order.push(i);
    proof {
        let r = d.push(i as int);
        assert(ints(order@) =~= r);
        assert(longer[path.len() as int] == i);
        assert forall|j: int| 0 <= j < marks@.len() implies ((#[trigger] marks@[j] == 2)
            <==> r.contains(j)) && ((marks@[j] == 1) <==> path.contains(j)) by {
            if j == i {
                assert(r[d.len() as int] == j);
            } else {
                if d.contains(j) {
                    let q = choose|q: int| 0 <= q < d.len() && d[q] == j;
                    assert(r[q] == j);
                }
                if r.contains(j) {
                    let q = choose|q: int| 0 <= q < r.len() && r[q] == j;
                    assert(d[q] == j);
                }
                if path.contains(j) {
                    let q = choose|q: int| 0 <= q < path.len() && path[q] == j;
                    assert(longer[q] == j);
                }
                if longer.contains(j) {
                    let q = choose|q: int| 0 <= q < longer.len() && longer[q] == j;
                    assert(path[q] == j);
                }
            }
        }
    }
    Ok(())
}

pub open spec fn cycle_message(name: Seq<char>) -> Seq<char> {
    "dependency cycle through app `"@ + name + "`"@
}

impl Manifest {
    /// The places of the apps in start order.
    pub fn app_order(&self) -> (r: Result<Vec<usize>, String>)
        ensures
            match r {
                Ok(order) => start_order(self.apps@) == Ok::<Seq<int>, int>(ints(order@))
                    && forall|p: int|
                    0 <= p < order@.len() ==> #[trigger] order@[p] < self.apps@.len(),
                Err(e) => start_order(self.apps@) matches Err(i) && 0 <= i < self.apps@.len()
                    && e@ == cycle_message(self.apps@[i].name@),
            },
    {
        let n: usize = self.apps.len();
        let mut marks: Vec<u8> = Vec::new();
        let mut m: usize = 0;
        while m < n
            invariant
                m <= n,
                n == self.apps@.len(),
                marks@.len() == m,
                forall|j: int| 0 <= j < m ==> #[trigger] marks@[j] == 0,
            decreases n - m,
        {
            marks.push(0);
            m += 1;
        }
        let mut order: Vec<usize> = Vec::new();
        assert(ints(order@) =~= Seq::<int>::empty());
        let mut k: usize = 0;
        while k < n
            invariant
                k <= n,
                n == self.apps@.len(),
                start_order_upto(self.apps@, k as int) == Ok::<Seq<int>, int>(ints(order@)),
                in_start_order(self.apps@, ints(order@)),
                marks_ok(self.apps@, marks@, ints(order@), Seq::<int>::empty()),
            decreases n - k,
        {
            let ghost before = ints(order@);
            match find_node(&self.apps, self.apps[k].name.as_str()) {
                None => {},
                Some(i) => {
                    proof {
                        lemma_placed(self.apps@, i as int, before, Seq::<int>::empty());
                    }
                    match place(
                        &self.apps,
                        i,
                        &mut marks,
                        &mut order,
                        Ghost(Seq::<int>::empty()),
                    ) {
                        Ok(_) => {},
                        Err(e) => {
                            proof {
                                assert(start_order_upto(self.apps@, k + 1) == Err::<
                                    Seq<int>,
                                    int,
                                >(e as int));
                                lemma_error_stays(self.apps@, k + 1, n as int);
                            }
                            let mut msg = "dependency cycle through app `".to_owned();
                            msg.append(self.apps[e].name.as_str());
                            msg.append("`");
                            return Err(msg);
                        },
                    }
                },
            }
            k += 1;
        }
        proof {
            assert forall|p: int| 0 <= p < order@.len() implies #[trigger] order@[p]
                < self.apps@.len() by {
                assert(ints(order@)[p] == order@[p]);
            }
        }
        Ok(order)
    }

    /// The apps in start order: each behind the apps it depends on. Checks are no part of it. A
    /// dependency cycle is an error; teardown goes the other way round.
    pub fn apps_ordered(&self) -> (r: Result<Vec<&App>, String>)
        ensures
            match r {
                Ok(list) => start_order(self.apps@) matches Ok(order) && list@.len() == order.len()
                    && forall|p: int|
                    0 <= p < list@.len() ==> *(#[trigger] list@[p]) == self.apps@[order[p]],
                Err(e) => start_order(self.apps@) matches Err(i) && 0 <= i < self.apps@.len()
                    && e@ == cycle_message(self.apps@[i].name@),
            },
    {
        match self.app_order() {
            Err(e) => Err(e),
            Ok(order) => {
                let mut list: Vec<&App> = Vec::new();
                let mut p: usize = 0;
                while p < order.len()
                    invariant
                        p <= order@.len(),
                        list@.len() == p,
                        forall|q: int|
                            0 <= q < order@.len() ==> #[trigger] order@[q] < self.apps@.len(),
                        forall|q: int|
                            0 <= q < p ==> *(#[trigger] list@[q]) == self.apps@[ints(order@)[q]],
                    decreases order@.len() - p,
                {
                    list.push(&self.apps[order[p]]);
                    p += 1;
                }
                Ok(list)
            },
        }
    }
}

/// Putting an app on the path that is being placed.
proof fn lemma_longer_path(apps: Seq<App>, i: int, done: Seq<int>, path: Seq<int>)
    requires
        0 <= i < apps.len(),
        path_ok(apps, done, path),
        path.len() > 0 ==> depends(apps, path.last(), i),
        !done.contains(i),
        !path.contains(i),
    ensures
        path_ok(apps, done, path.push(i)),
        path.len() < apps.len(),
{
    let longer = path.push(i);
    assert forall|a: int, b: int|
        0 <= a < longer.len() && 0 <= b < longer.len() && a != b implies longer[a] != longer[b] by {
        if a < path.len() && b < path.len() {
            assert(path[a] != path[b]);
        } else if a < path.len() {
            assert(path.contains(path[a]));
        } else {
            assert(path.contains(path[b]));
        }
    }
    assert forall|k: int| 0 <= k < longer.len() implies 0 <= #[trigger] longer[k] < apps.len()
        && !done.contains(longer[k]) by {
        if k < path.len() {
            assert(longer[k] == path[k]);
        }
    }
    lemma_distinct_below(longer, apps.len());
    assert forall|k: int| 0 <= k < longer.len() - 1 implies depends(
        apps,
        #[trigger] longer[k],
        longer[k + 1],
    ) by {
        assert(longer[k] == path[k]);
        if k + 1 < path.len() {
            assert(longer[k + 1] == path[k + 1]);
        } else {
            assert(path[k] == path.last());
        }
    }
}

/// An error met on the way is the error of the whole.
proof fn lemma_error_stays(apps: Seq<App>, k: int, n: int)
    requires
        0 <= k <= n,
        start_order_upto(apps, k) is Err,
    ensures
        start_order_upto(apps, n) == start_order_upto(apps, k),
    decreases n - k,
{
    if k < n {
        lemma_error_stays(apps, k, n - 1);
    }
}

/// What the start order of the first `n` apps is.
proof fn lemma_start_order_upto(apps: Seq<App>, n: int)
    requires
        0 <= n <= apps.len(),
    ensures
        match start_order_upto(apps, n) {
            Ok(order) => {
                &&& in_start_order(apps, order)
                &&& forall|k: int|
                    0 <= k < n ==> (node(apps, (#[trigger] apps[k]).name@) matches Some(i)
                        && order.contains(i))
            },
            Err(e) => on_cycle(apps, e) && 0 <= e < apps.len(),
        },
    decreases n,
{
    if n > 0 {
        lemma_start_order_upto(apps, n - 1);
        match start_order_upto(apps, n - 1) {
            Err(_) => {},
            Ok(done) => {
                let name = apps[n - 1].name@;
                lemma_last_named(apps, name, apps.len() as int);
                let i = node(apps, name)->0;
                lemma_placed(apps, i, done, Seq::<int>::empty());
                match placed(apps, i, done, Seq::<int>::empty()) {
                    Ok(d) => {
                        assert forall|k: int| 0 <= k < n implies (node(
                            apps,
                            (#[trigger] apps[k]).name@,
                        ) matches Some(x) && d.contains(x)) by {
                            if k < n - 1 {
                                let x = node(apps, apps[k].name@)->0;
                                let q = choose|q: int| 0 <= q < done.len() && done[q] == x;
                                assert(d.subrange(0, done.len() as int)[q] == done[q]);
                                assert(d[q] == x);
                            }
                        }
                    },
                    Err(_) => {},
                }
            },
        }
    }
}

/// The start order lists every name once, and every app behind the apps it depends on.
pub proof fn law_start_order(m: Manifest)
    requires
        start_order(m.apps@) is Ok,
    ensures
        in_start_order(m.apps@, start_order(m.apps@)->Ok_0),
        forall|k: int|
            0 <= k < m.apps@.len() ==> (node(m.apps@, (#[trigger] m.apps@[k]).name@) matches Some(
                i,
            ) && start_order(m.apps@)->Ok_0.contains(i)),
{
    lemma_start_order_upto(m.apps@, m.apps@.len() as int);
}

/// The start order is no longer than the list of apps.
pub proof fn lemma_start_order_len(m: Manifest)
    requires
        start_order(m.apps@) is Ok,
    ensures
        start_order(m.apps@)->Ok_0.len() <= m.apps@.len(),
{
    law_start_order(m);
    lemma_distinct_below(start_order(m.apps@)->Ok_0, m.apps@.len());
}

/// In a list that stands in start order, what an app depends on through others stands before it.
proof fn lemma_walk_goes_back(apps: Seq<App>, order: Seq<int>, walk: Seq<int>, p: int)
    requires
        in_start_order(apps, order),
        is_walk(apps, walk),
        walk.len() >= 2,
        0 <= p < order.len(),
        order[p] == walk[0],
    ensures
        exists|q: int| 0 <= q < p && #[trigger] order[q] == walk.last(),
    decreases walk.len(),
{
    assert(depends(apps, walk[0], walk[1]));
    let q = choose|q: int| 0 <= q < p && #[trigger] order[q] == walk[1];
    if walk.len() > 2 {
        let rest = walk.skip(1);
        assert forall|k: int| 0 <= k < rest.len() - 1 implies depends(
            apps,
            #[trigger] rest[k],
            rest[k + 1],
        ) by {
            assert(rest[k] == walk[k + 1] && rest[k + 1] == walk[k + 2]);
        }
        assert(rest[0] == walk[1]);
        lemma_walk_goes_back(apps, order, rest, q);
        assert(rest.last() == walk.last());
    }
}

/// There is a start order exactly where no app depends on itself through others, and the app
/// that is named when there is none does.
pub proof fn law_start_order_iff_no_cycle(m: Manifest)
    ensures
        start_order(m.apps@) is Ok <==> forall|i: int| !#[trigger] on_cycle(m.apps@, i),
        start_order(m.apps@) matches Err(i) ==> on_cycle(m.apps@, i),
{
    let apps = m.apps@;
    lemma_start_order_upto(apps, apps.len() as int);
    match start_order(apps) {
        Err(_) => {},
        Ok(order) => {
            assert forall|i: int| !#[trigger] on_cycle(apps, i) by {
                if on_cycle(apps, i) {
                    let walk = choose|walk: Seq<int>|
                        walk.len() >= 2 && #[trigger] is_walk(apps, walk) && walk[0] == i
                            && walk.last() == i;
                    assert(depends(apps, walk[0], walk[1]));
                    let j = walk[walk.len() - 2];
                    assert(depends(apps, j, walk[walk.len() - 2 + 1]));
                    let k = choose|k: int|
                        0 <= k < apps[j].depends_on@.len() && node(
                            apps,
                            (#[trigger] apps[j].depends_on@[k])@,
                        ) == Some(i);
                    let name = apps[j].depends_on@[k]@;
                    lemma_last_named(apps, name, apps.len() as int);
                    assert(apps[i].name@ == name);
                    assert(order.contains(i));
                    let p = choose|p: int| 0 <= p < order.len() && order[p] == i;
                    lemma_walk_goes_back(apps, order, walk, p);
                    let q = choose|q: int| 0 <= q < p && #[trigger] order[q] == walk.last();
                    assert(order[q] == order[p]);
                }
            }
        },
    }
}

/// Whether a name is that of an app.
pub open spec fn is_app(apps: Seq<App>, name: Seq<char>) -> bool {
    node(apps, name) is Some
}

/// Whether app `i` is one of the named apps, or one of them depends on it, directly or through
/// others.
pub open spec fn pulled_in(apps: Seq<App>, only: Seq<Seq<char>>, i: int) -> bool {
    exists|walk: Seq<int>, k: int|
        walk.len() >= 1 && #[trigger] is_walk(apps, walk) && walk.last() == i && 0 <= k
            < only.len() && node(apps, #[trigger] only[k]) == Some(walk[0])
}

/// The names of the apps that run when `only` is asked for; all of them when nothing is.
pub open spec fn selection(apps: Seq<App>, only: Option<Seq<Seq<char>>>) -> Set<Seq<char>> {
    match only {
        None => Set::new(|x: Seq<char>| is_app(apps, x)),
        Some(list) => Set::new(
            |x: Seq<char>| node(apps, x) matches Some(i) && pulled_in(apps, list, i),
        ),
    }
}

/// The first name of a list that is no app, from `from` on.
pub open spec fn first_unknown(apps: Seq<App>, only: Seq<Seq<char>>, from: int) -> Option<int>
    decreases only.len() - from,
{
    if from < 0 || from >= only.len() {
        None
    } else if !is_app(apps, only[from]) {
        Some(from)
    } else {
        first_unknown(apps, only, from + 1)
    }
}

pub open spec fn unknown_app_message(name: Seq<char>) -> Seq<char> {
    "--only: unknown app `"@ + name + "`"@
}

/// How many marks are not set.
spec fn unmarked(marks: Seq<bool>) -> nat
    decreases marks.len(),
{
    if marks.len() == 0 {
        0
    } else {
        unmarked(marks.drop_last()) + if marks.last() {
            0nat
        } else {
            1
        }
    }
}

proof fn lemma_mark(marks: Seq<bool>, i: int)
    requires
        0 <= i < marks.len(),
        !marks[i],
    ensures
        unmarked(marks.update(i, true)) + 1 == unmarked(marks),
    decreases marks.len(),
{
    let after = marks.update(i, true);
    if i == marks.len() - 1 {
        assert(after.drop_last() =~= marks.drop_last());
    } else {
        lemma_mark(marks.drop_last(), i);
        assert(after.drop_last() =~= marks.drop_last().update(i, true));
    }
}

/// The app that its own name stands for.
proof fn lemma_node_of_node(apps: Seq<App>, name: Seq<char>)
    requires
        node(apps, name) is Some,
    ensures
        0 <= node(apps, name)->0 < apps.len(),
        apps[node(apps, name)->0].name@ == name,
{
    lemma_last_named(apps, name, apps.len() as int);
}

/// What an app depends on is an app.
proof fn lemma_depends_bounds(apps: Seq<App>, i: int, j: int)
    requires
        depends(apps, i, j),
    ensures
        0 <= j < apps.len(),
{
    let k = choose|k: int|
        0 <= k < apps[i].depends_on@.len() && node(
            apps,
            (#[trigger] apps[i].depends_on@[k])@,
        ) == Some(j);
    lemma_node_of_node(apps, apps[i].depends_on@[k]@);
}

/// A marking that holds the start of a walk and all that a marked app depends on holds the end
/// of the walk.
proof fn lemma_closed_holds_walk(apps: Seq<App>, marks: Seq<bool>, walk: Seq<int>)
    requires
        marks.len() == apps.len(),
        walk.len() >= 1,
        is_walk(apps, walk),
        0 <= walk[0] < marks.len(),
        marks[walk[0]],
        forall|i: int, j: int|
            0 <= i < apps.len() && marks[i] && #[trigger] depends(apps, i, j) ==> 0 <= j
                < apps.len() && marks[j],
    ensures
        0 <= walk.last() < marks.len(),
        marks[walk.last()],
    decreases walk.len(),
{
    if walk.len() >= 2 {
        assert(depends(apps, walk[0], walk[1]));
        let rest = walk.skip(1);
        assert forall|k: int| 0 <= k < rest.len() - 1 implies depends(
            apps,
            #[trigger] rest[k],
            rest[k + 1],
        ) by {
            assert(rest[k] == walk[k + 1] && rest[k + 1] == walk[k + 2]);
        }
        lemma_closed_holds_walk(apps, marks, rest);
        assert(rest.last() == walk.last());
    }
}

/// What an app that is pulled in depends on is pulled in.
proof fn lemma_pulled_in_step(apps: Seq<App>, only: Seq<Seq<char>>, i: int, j: int)
    requires
        pulled_in(apps, only, i),
        depends(apps, i, j),
    ensures
        pulled_in(apps, only, j),
{
    let (walk, k) = choose|walk: Seq<int>, k: int|
        walk.len() >= 1 && #[trigger] is_walk(apps, walk) && walk.last() == i && 0 <= k
            < only.len() && node(apps, #[trigger] only[k]) == Some(walk[0]);
    let longer = walk.push(j);
    assert forall|a: int| 0 <= a < longer.len() - 1 implies depends(
        apps,
        #[trigger] longer[a],
        longer[a + 1],
    ) by {
        assert(longer[a] == walk[a]);
        if a + 1 < walk.len() {
            assert(longer[a + 1] == walk[a + 1]);
        }
    }
    assert(is_walk(apps, longer) && longer.last() == j && longer[0] == walk[0]);
    assert(node(apps, only[k]) == Some(longer[0]));
}

/// Marks the apps that `roots` name and all that they depend on.
fn mark_pulled_in(apps: &Vec<App>, roots: &Vec<usize>, Ghost(only): Ghost<Seq<Seq<char>>>) -> (r:
    Vec<bool>)
    requires
        roots@.len() == only.len(),
        forall|k: int|
            0 <= k < only.len() ==> node(apps@, #[trigger] only[k]) == Some(roots@[k] as int),
    ensures
        r@.len() == apps@.len(),
        forall|i: int| 0 <= i < r@.len() ==> (#[trigger] r@[i] <==> pulled_in(apps@, only, i)),
{
    let mut marks: Vec<bool> = Vec::new();
    let mut m: usize = 0;
    while m < apps.len()
        invariant
            m <= apps@.len(),
            marks@.len() == m,
            forall|j: int| 0 <= j < m ==> !#[trigger] marks@[j],
        decreases apps@.len() - m,
    {
        marks.push(false);
        m += 1;
    }
    let mut queue: Vec<usize> = Vec::new();
    let mut k: usize = 0;
    while k < roots.len()
        invariant
            k <= roots@.len(),
            roots@.len() == only.len(),
            forall|x: int|
                0 <= x < only.len() ==> node(apps@, #[trigger] only[x]) == Some(roots@[x] as int),
            forall|q: int|
                0 <= q < queue@.len() ==> (#[trigger] queue@[q]) < apps@.len() && pulled_in(
                    apps@,
                    only,
                    queue@[q] as int,
                ),
            forall|x: int| 0 <= x < k ==> queue@.contains(#[trigger] roots@[x]),
        decreases roots@.len() - k,
    {
        proof {
            let i = roots@[k as int] as int;
            assert(node(apps@, only[k as int]) == Some(i));
            lemma_node_of_node(apps@, only[k as int]);
            let walk = seq![i];
            assert(is_walk(apps@, walk) && walk.last() == i && walk[0] == i);
            assert(pulled_in(apps@, only, i));
        }
        let ghost before = queue@;
        queue.push(roots[k]);
        proof {
            assert forall|x: int| 0 <= x < k + 1 implies queue@.contains(#[trigger] roots@[x]) by {
                if x < k {
                    assert(before.contains(roots@[x]));
                    let q = choose|q: int| 0 <= q < before.len() && before[q] == roots@[x];
                    assert(queue@[q] == roots@[x]);
                } else {
                    assert(queue@[before.len() as int] == roots@[x]);
                }
            }
        }
        k += 1;
    }
    while queue.len() > 0
        invariant
            marks@.len() == apps@.len(),
            roots@.len() == only.len(),
            forall|x: int|
                0 <= x < only.len() ==> node(apps@, #[trigger] only[x]) == Some(roots@[x] as int),
            forall|i: int| 0 <= i < marks@.len() && #[trigger] marks@[i] ==> pulled_in(
                apps@,
                only,
                i,
            ),
            forall|q: int|
                0 <= q < queue@.len() ==> (#[trigger] queue@[q]) < apps@.len() && pulled_in(
                    apps@,
                    only,
                    queue@[q] as int,
                ),
            forall|x: int|
                0 <= x < roots@.len() ==> (#[trigger] roots@[x]) < apps@.len() && (
                marks@[roots@[x] as int] || queue@.contains(roots@[x])),
            forall|i: int, j: usize|
                0 <= i < apps@.len() && marks@[i] && #[trigger] depends(apps@, i, j as int)
                    ==> marks@[j as int] || queue@.contains(j),
        decreases unmarked(marks@), queue@.len(),
    {
        let ghost queue0 = queue@;
        let ghost marks0 = marks@;
        let i: usize = queue.pop().unwrap();
        proof {
            assert(i == queue0.last());
            assert(queue@ == queue0.drop_last());
            assert(queue0[queue0.len() - 1] == i);
        }
        if !marks[i] {
            marks.set(i, true);
            proof {
                lemma_mark(marks0, i as int);
            }
            let ghost queue1 = queue@;
            let mut d: usize = 0;
            while d < apps[i].depends_on.len()
                invariant
                    i < apps@.len(),
                    d <= apps@[i as int].depends_on@.len(),
                    pulled_in(apps@, only, i as int),
                    queue1.len() <= queue@.len(),
                    forall|q: int| 0 <= q < queue1.len() ==> #[trigger] queue@[q] == queue1[q],
                    forall|q: int|
                        0 <= q < queue@.len() ==> (#[trigger] queue@[q]) < apps@.len()
                            && pulled_in(apps@, only, queue@[q] as int),
                    forall|x: int, j: usize|
                        0 <= x < d && node(
                            apps@,
                            (#[trigger] apps@[i as int].depends_on@[x])@,
                        ) == Some(j as int) ==> #[trigger] queue@.contains(j),
                decreases apps@[i as int].depends_on@.len() - d,
            {
                let ghost before = queue@;
                match find_node(apps, apps[i].depends_on[d].as_str()) {
                    Some(j) => {
                        proof {
                            assert(node(apps@, apps@[i as int].depends_on@[d as int]@) == Some(
                                j as int,
                            ));
                            assert(depends(apps@, i as int, j as int));
                            lemma_pulled_in_step(apps@, only, i as int, j as int);
                        }
                        queue.push(j);
                        assert(queue@[before.len() as int] == j);
                    },
                    None => {},
                }
                proof {
                    assert forall|x: int, j: usize|
                        0 <= x < d + 1 && node(
                            apps@,
                            (#[trigger] apps@[i as int].depends_on@[x])@,
                        ) == Some(j as int) implies #[trigger] queue@.contains(j) by {
                        if x < d {
                            assert(before.contains(j));
                            let q = choose|q: int| 0 <= q < before.len() && before[q] == j;
                            assert(queue@[q] == j);
                        }
                    }
                }
                d += 1;
            }
            proof {
                assert forall|x: usize| queue0.contains(x) implies x == i
                    || #[trigger] queue@.contains(x) by {
                    let q = choose|q: int| 0 <= q < queue0.len() && queue0[q] == x;
                    if q < queue0.len() - 1 {
                        assert(queue1[q] == x);
                        assert(queue@[q] == x);
                    }
                }
                assert forall|a: int, j: usize|
                    0 <= a < apps@.len() && marks@[a] && #[trigger] depends(
                        apps@,
                        a,
                        j as int,
                    ) implies marks@[j as int] || queue@.contains(j) by {
                    lemma_depends_bounds(apps@, a, j as int);
                    if a == i {
                        let x = choose|x: int|
                            0 <= x < apps@[i as int].depends_on@.len() && node(
                                apps@,
                                (#[trigger] apps@[i as int].depends_on@[x])@,
                            ) == Some(j as int);
                        assert(queue@.contains(j));
                    } else {
                        assert(marks0[a]);
                        if !marks0[j as int] {
                            assert(queue0.contains(j));
                        }
                    }
                }
                assert forall|x: int| 0 <= x < roots@.len() implies (#[trigger] roots@[x])
                    < apps@.len() && (marks@[roots@[x] as int] || queue@.contains(roots@[x])) by {
                    if !marks0[roots@[x] as int] {
                        assert(queue0.contains(roots@[x]));
                    }
                }
            }
        } else {
            proof {
                assert forall|x: usize| queue0.contains(x) && x != i implies
                    #[trigger] queue@.contains(x) by {
                    let q = choose|q: int| 0 <= q < queue0.len() && queue0[q] == x;
                    assert(queue@[q] == x);
                }
                assert forall|a: int, j: usize|
                    0 <= a < apps@.len() && marks@[a] && #[trigger] depends(
                        apps@,
                        a,
                        j as int,
                    ) implies marks@[j as int] || queue@.contains(j) by {
                    if !marks0[j as int] {
                        assert(queue0.contains(j));
                    }
                }
            }
        }
    }
    proof {
        assert forall|i: int| 0 <= i < marks@.len() && pulled_in(apps@, only, i) implies
            #[trigger] marks@[i] by {
            let (walk, k) = choose|walk: Seq<int>, k: int|
                walk.len() >= 1 && #[trigger] is_walk(apps@, walk) && walk.last() == i && 0 <= k
                    < only.len() && node(apps@, #[trigger] only[k]) == Some(walk[0]);
            assert(roots@[k] as int == walk[0]);
            assert forall|a: int, j: int|
                0 <= a < apps@.len() && marks@[a] && #[trigger] depends(apps@, a, j) implies 0 <= j
                < apps@.len() && marks@[j] by {
                lemma_depends_bounds(apps@, a, j);
                assert(depends(apps@, a, (j as usize) as int));
            }
            lemma_closed_holds_walk(apps@, marks@, walk);
        }
    }
    marks
}

/// The selected apps with all apps they depend on; without a selection, every app.
pub fn select_apps(manifest: &Manifest, only: Option<&[String]>) -> (r: Result<NameSet, String>)
    ensures
        match r {
            Ok(set) => {
                &&& set.wf()
                &&& match only {
                    None => set@ == selection(manifest.apps@, None),
                    Some(list) => first_unknown(manifest.apps@, texts(list@), 0) is None && set@
                        == selection(manifest.apps@, Some(texts(list@))),
                }
            },
            Err(e) => only matches Some(list) && first_unknown(
                manifest.apps@,
                texts(list@),
                0,
            ) matches Some(k) && 0 <= k < list@.len() && e@ == unknown_app_message(list@[k]@),
        },
{
    let apps = &manifest.apps;
    let mut set = NameSet::new();
    match only {
        None => {
            let mut i: usize = 0;
            while i < apps.len()
                invariant
                    i <= apps@.len(),
                    set.wf(),
                    forall|x: Seq<char>| #[trigger]
                        set@.contains(x) <==> exists|j: int|
                            0 <= j < i && (#[trigger] apps@[j]).name@ == x,
                decreases apps@.len() - i,
            {
                let ghost before = set@;
                set.insert(apps[i].name.as_str());
                proof {
                    assert forall|x: Seq<char>| #[trigger]
                        set@.contains(x) <==> exists|j: int|
                            0 <= j < i + 1 && (#[trigger] apps@[j]).name@ == x by {
                        if x == apps@[i as int].name@ {
                            assert(set@.contains(x));
                        } else if before.contains(x) {
                            let j = choose|j: int| 0 <= j < i && (#[trigger] apps@[j]).name@ == x;
                            assert(apps@[j].name@ == x);
                        }
                    }
                }
                i += 1;
            }
            proof {
                assert forall|x: Seq<char>| set@.contains(x) <==> #[trigger] selection(
                    apps@,
                    None,
                ).contains(x) by {
                    lemma_last_named(apps@, x, apps@.len() as int);
                    if set@.contains(x) {
                        let j = choose|j: int|
                            0 <= j < apps@.len() && (#[trigger] apps@[j]).name@ == x;
                        assert(apps@[j].name@ == x);
                    }
                    if is_app(apps@, x) {
                        assert(apps@[node(apps@, x)->0].name@ == x);
                    }
                }
                assert(set@ =~= selection(apps@, None));
            }
            Ok(set)
        },
        Some(list) => {
            let ghost names = texts(list@);
            let mut roots: Vec<usize> = Vec::new();
            let mut k: usize = 0;
            while k < list.len()
                invariant
                    *apps == manifest.apps,
                    only == Some(list),
                    names == texts(list@),
                    k <= list@.len(),
                    roots@.len() == k,
                    forall|x: int|
                        0 <= x < k ==> node(apps@, #[trigger] names[x]) == Some(roots@[x] as int),
                    first_unknown(apps@, names, 0) == first_unknown(apps@, names, k as int),
                decreases list@.len() - k,
            {
                assert(names[k as int] == list@[k as int]@);
                match find_node(apps, list[k].as_str()) {
                    Some(i) => {
                        roots.push(i);
                    },
                    None => {
                        return Err(join3("--only: unknown app `", list[k].as_str(), "`"));
                    },
                }
                k += 1;
            }
            let marks = mark_pulled_in(apps, &roots, Ghost(names));
            let mut i: usize = 0;
            while i < apps.len()
                invariant
                    i <= apps@.len(),
                    marks@.len() == apps@.len(),
                    set.wf(),
                    forall|x: Seq<char>| #[trigger]
                        set@.contains(x) <==> exists|j: int|
                            0 <= j < i && #[trigger] marks@[j] && apps@[j].name@ == x,
                decreases apps@.len() - i,
            {
                let ghost before = set@;
                if marks[i] {
                    set.insert(apps[i].name.as_str());
                }
                proof {
                    assert forall|x: Seq<char>| #[trigger]
                        set@.contains(x) <==> exists|j: int|
                            0 <= j < i + 1 && #[trigger] marks@[j] && apps@[j].name@ == x by {
                        if before.contains(x) {
                            let j = choose|j: int|
                                0 <= j < i && #[trigger] marks@[j] && apps@[j].name@ == x;
                            assert(marks@[j]);
                        }
                        if marks@[i as int] && x == apps@[i as int].name@ {
                            assert(set@.contains(x));
                        }
                    }
                }
                i += 1;
            }
            proof {
                assert forall|x: Seq<char>| set@.contains(x) <==> #[trigger] selection(
                    apps@,
                    Some(names),
                ).contains(x) by {
                    if set@.contains(x) {
                        let j = choose|j: int|
                            0 <= j < apps@.len() && #[trigger] marks@[j] && apps@[j].name@ == x;
                        lemma_pulled_in_is_node(apps@, names, j);
                    }
                    match node(apps@, x) {
                        Some(j) => {
                            lemma_node_of_node(apps@, x);
                            if pulled_in(apps@, names, j) {
                                assert(marks@[j]);
                            }
                        },
                        None => {},
                    }
                }
                assert(set@ =~= selection(apps@, Some(names)));
            }
            Ok(set)
        },
    }
}

/// An app that is pulled in is the one that its name stands for.
proof fn lemma_pulled_in_is_node(apps: Seq<App>, only: Seq<Seq<char>>, i: int)
    requires
        pulled_in(apps, only, i),
    ensures
        0 <= i < apps.len(),
        node(apps, apps[i].name@) == Some(i),
{
    let (walk, k) = choose|walk: Seq<int>, k: int|
        walk.len() >= 1 && #[trigger] is_walk(apps, walk) && walk.last() == i && 0 <= k
            < only.len() && node(apps, #[trigger] only[k]) == Some(walk[0]);
    if walk.len() == 1 {
        lemma_node_of_node(apps, only[k]);
    } else {
        let p = walk[walk.len() - 2];
        assert(depends(apps, p, walk[walk.len() - 2 + 1]));
        let d = choose|d: int|
            0 <= d < apps[p].depends_on@.len() && node(
                apps,
                (#[trigger] apps[p].depends_on@[d])@,
            ) == Some(i);
        lemma_node_of_node(apps, apps[p].depends_on@[d]@);
    }
}

/// What is asked for is selected, where all of it is known.
pub proof fn lemma_asked_is_selected(apps: Seq<App>, only: Seq<Seq<char>>, k: int)
    requires
        0 <= k < only.len(),
        first_unknown(apps, only, 0) is None,
    ensures
        selection(apps, Some(only)).contains(only[k]),
{
    lemma_all_known(apps, only, 0, k);
    let i = node(apps, only[k])->0;
    let walk = seq![i];
    assert(is_walk(apps, walk) && walk.last() == i && walk[0] == i);
    assert(pulled_in(apps, only, i));
}

proof fn lemma_all_known(apps: Seq<App>, only: Seq<Seq<char>>, from: int, k: int)
    requires
        0 <= from <= k < only.len(),
        first_unknown(apps, only, from) is None,
    ensures
        is_app(apps, only[k]),
    decreases k - from,
{
    if from < k {
        lemma_all_known(apps, only, from + 1, k);
    }
}

/// A selection holds what is asked for, and with an app all apps it depends on.
pub proof fn law_selection_is_closed(m: Manifest, only: Seq<Seq<char>>, k: int, i: int, j: int)
    requires
        first_unknown(m.apps@, only, 0) is None,
        0 <= k < only.len(),
        node(m.apps@, m.apps@[i].name@) == Some(i),
        depends(m.apps@, i, j),
    ensures
        selection(m.apps@, Some(only)).contains(only[k]),
        selection(m.apps@, Some(only)).contains(m.apps@[i].name@) ==> selection(
            m.apps@,
            Some(only),
        ).contains(m.apps@[j].name@),
{
    let apps = m.apps@;
    lemma_asked_is_selected(apps, only, k);
    if selection(apps, Some(only)).contains(apps[i].name@) {
        lemma_pulled_in_step(apps, only, i, j);
        lemma_pulled_in_is_node(apps, only, j);
    }
}

} // verus!
