//! Deterministic branch and bound over the joint assignment space.
//!
//! Pin conflicts couple otherwise independent instance choices, so this is constraint
//! optimization. Candidates are explored in per-request cost order and pruned with an
//! admissible lower bound, so the result minimizes the total cost.
use vstd::prelude::*;

use crate::order::{
    as_ints, is_permutation, permutation_is_onto, picked, rank_order, ranking, ranking_is_stable,
};
use crate::pinmux::model::{Combo, ComboV, RReq, RReqV};
use crate::text::same;

verus! {

/// Checks after which the search for a cheaper assignment stops.
pub const SOLVER_BUDGET: u128 = 2_000_000;

/// Checks after which the search stops with or without an assignment.
pub const SOLVER_HARD_BUDGET: u128 = 50_000_000;

/// What the search found.
pub enum AssignOutcome {
    /// The combo chosen for each request; `capped` when a cheaper one may exist.
    Solved { chosen: Vec<usize>, capped: bool },
    Infeasible,
    /// The hard ceiling was hit with no assignment at hand: feasibility is neither proven
    /// nor refuted.
    Unknown,
}

/// The value of an `AssignOutcome`.
pub enum AssignOutcomeV {
    Solved { chosen: Seq<int>, capped: bool },
    Infeasible,
    Unknown,
}

impl DeepView for AssignOutcome {
    type V = AssignOutcomeV;

    open spec fn deep_view(&self) -> AssignOutcomeV {
        match self {
            AssignOutcome::Solved { chosen, capped } => AssignOutcomeV::Solved {
                chosen: as_ints(chosen@),
                capped: *capped,
            },
            AssignOutcome::Infeasible => AssignOutcomeV::Infeasible,
            AssignOutcome::Unknown => AssignOutcomeV::Unknown,
        }
    }
}

/// The combo claims the pin.
pub open spec fn takes(c: ComboV, pin: Seq<char>) -> bool {
    exists|i: int| 0 <= i < c.pins.len() && (#[trigger] c.pins[i]).1.name == pin
}

/// Two combos that cannot both be chosen: they share the instance or a pin.
pub open spec fn clash(a: ComboV, b: ComboV) -> bool {
    a.periph_idx == b.periph_idx || exists|pin: Seq<char>| #[trigger] takes(a, pin) && takes(b, pin)
}

/// `c` clashes with none of the combos chosen along `path`.
pub open spec fn fits(levels: Seq<Seq<ComboV>>, path: Seq<int>, c: ComboV) -> bool {
    forall|k: int| 0 <= k < path.len() ==> !clash(levels[k][#[trigger] path[k]], c)
}

/// `path` chooses an existing combo on each of its levels, and no two of them clash.
pub open spec fn apart(levels: Seq<Seq<ComboV>>, path: Seq<int>) -> bool {
    &&& path.len() <= levels.len()
    &&& forall|k: int| 0 <= k < path.len() ==> 0 <= (#[trigger] path[k]) < levels[k].len()
    &&& forall|j: int, k: int|
        0 <= j < k < path.len() ==> !clash(levels[j][#[trigger] path[j]], levels[k][#[trigger] path[k]])
}

/// A choice for every level without a clash.
pub open spec fn feasible(levels: Seq<Seq<ComboV>>, path: Seq<int>) -> bool {
    path.len() == levels.len() && apart(levels, path)
}

/// The total cost of the combos chosen along `path`.
pub open spec fn path_cost(levels: Seq<Seq<ComboV>>, path: Seq<int>) -> int
    decreases path.len(),
{
    if path.len() == 0 {
        0
    } else {
        path_cost(levels, path.drop_last()) + levels[path.len() - 1][path.last()].cost
    }
}

/// The total of the first candidates' costs from level `k` on.
pub open spec fn floor(levels: Seq<Seq<ComboV>>, k: int) -> int
    decreases levels.len() - k,
{
    if k >= levels.len() {
        0
    } else {
        levels[k][0].cost + floor(levels, k + 1)
    }
}

/// A point of the search: the choices made, where to go on at the next level, the best
/// assignment so far with its cost, and the checks spent.
pub struct Search {
    pub path: Seq<int>,
    pub next: int,
    pub best: Option<(int, Seq<int>)>,
    pub spent: int,
}

/// The bound with combo `ci` of the next level reaches the incumbent.
pub open spec fn bounded(levels: Seq<Seq<ComboV>>, s: Search, ci: int) -> bool {
    match s.best {
        Some(b) => path_cost(levels, s.path) + levels[s.path.len() as int][ci].cost + floor(
            levels,
            s.path.len() as int + 1,
        ) >= b.0,
        None => false,
    }
}

/// Looks for the next combo that fits: where the scan stopped, what it spent in all, and
/// whether a combo was found.
pub open spec fn scan(levels: Seq<Seq<ComboV>>, s: Search, ci: int, spent: int) -> (int, int, bool)
    decreases levels[s.path.len() as int].len() - ci,
{
    let level = levels[s.path.len() as int];
    if ci >= level.len() || bounded(levels, s, ci) {
        (ci, spent, false)
    } else if fits(levels, s.path, level[ci]) {
        (ci, spent + 1, true)
    } else {
        scan(levels, s, ci + 1, spent + 1)
    }
}

/// The search takes back its last choice and goes on behind it.
pub open spec fn back(s: Search) -> Search {
    Search { path: s.path.drop_last(), next: s.path.last() + 1, ..s }
}

/// One step of the search; `None` when everything has been explored.
pub open spec fn step(levels: Seq<Seq<ComboV>>, s: Search) -> Option<Search> {
    if s.path.len() == levels.len() {
        let total = path_cost(levels, s.path);
        let better = match s.best {
            Some(b) => total < b.0,
            None => true,
        };
        Some(
            back(
                Search {
                    best: if better {
                        Some((total, s.path))
                    } else {
                        s.best
                    },
                    spent: s.spent + 1,
                    ..s
                },
            ),
        )
    } else {
        let (ci, spent, placed) = scan(levels, s, s.next, s.spent + 1);
        if placed {
            Some(Search { path: s.path.push(ci), next: 0, best: s.best, spent })
        } else if s.path.len() == 0 {
            None
        } else {
            Some(back(Search { spent, ..s }))
        }
    }
}

/// A scan goes forward and gives nothing back of what was spent.
pub proof fn scan_spends(levels: Seq<Seq<ComboV>>, s: Search, ci: int, spent: int)
    ensures
        scan(levels, s, ci, spent).1 >= spent,
        scan(levels, s, ci, spent).0 >= ci,
    decreases levels[s.path.len() as int].len() - ci,
{
    let level = levels[s.path.len() as int];
    if !(ci >= level.len() || bounded(levels, s, ci)) && !fits(levels, s.path, level[ci]) {
        scan_spends(levels, s, ci + 1, spent + 1);
    }
}

/// A step spends at least one check.
pub proof fn step_spends(levels: Seq<Seq<ComboV>>, s: Search)
    ensures
        step(levels, s) matches Some(t) ==> t.spent > s.spent,
{
    scan_spends(levels, s, s.next, s.spent + 1);
}

/// The checks that the search may still spend.
pub open spec fn checks_left(s: Search) -> int {
    if s.spent < SOLVER_HARD_BUDGET {
        SOLVER_HARD_BUDGET - s.spent
    } else {
        0
    }
}

/// The outcome of the search from `s` on, its choices listed by level.
pub open spec fn run(levels: Seq<Seq<ComboV>>, s: Search) -> AssignOutcomeV
    decreases checks_left(s),
{
    if s.spent >= SOLVER_BUDGET && s.best is Some {
        AssignOutcomeV::Solved { chosen: s.best.unwrap().1, capped: true }
    } else if s.spent >= SOLVER_HARD_BUDGET {
        AssignOutcomeV::Unknown
    } else {
        proof {
            step_spends(levels, s);
        }
        match step(levels, s) {
            Some(t) => run(levels, t),
            None => match s.best {
                Some(b) => AssignOutcomeV::Solved { chosen: b.1, capped: false },
                None => AssignOutcomeV::Infeasible,
            },
        }
    }
}

/// Where the search begins.
pub open spec fn start() -> Search {
    Search { path: Seq::empty(), next: 0, best: None, spent: 0 }
}

/// The evaluation order: locked requests first, then those with the fewest candidates, then
/// declaration order.
pub open spec fn evaluation_order(reqs: Seq<RReqV>, all: Seq<Seq<ComboV>>) -> Seq<int> {
    ranking::<(bool, usize)>(
        Seq::new(reqs.len(), |i: int| (!reqs[i].lock, all[i].len() as usize)),
    )
}

/// The choices by request, from the choices by level.
pub open spec fn by_request(order: Seq<int>, path: Seq<int>) -> Seq<int> {
    Seq::new(order.len(), |r: int| path[order.index_of(r)])
}

/// What `assign` returns.
pub open spec fn assigned(reqs: Seq<RReqV>, all: Seq<Seq<ComboV>>) -> AssignOutcomeV {
    let order = evaluation_order(reqs, all);
    if reqs.len() == 0 {
        AssignOutcomeV::Solved { chosen: Seq::empty(), capped: false }
    } else {
        match run(picked(all, order), start()) {
            AssignOutcomeV::Solved { chosen, capped } => AssignOutcomeV::Solved {
                chosen: by_request(order, chosen),
                capped,
            },
            other => other,
        }
    }
}

/// `ids` names the pins of `c` by their places in `names`.
spec fn named(names: Seq<Seq<char>>, c: ComboV, ids: Seq<usize>) -> bool {
    &&& ids.len() == c.pins.len()
    &&& forall|i: int|
        0 <= i < ids.len() ==> (#[trigger] ids[i]) < names.len() && names[ids[i] as int]
            == c.pins[i].1.name
}

/// `more` begins with `names`.
spec fn grows(names: Seq<Seq<char>>, more: Seq<Seq<char>>) -> bool {
    names.len() <= more.len() && forall|i: int| 0 <= i < names.len() ==> names[i] == #[trigger] more[i]
}

/// `ids` names the pins of each combo of a level.
spec fn level_named(names: Seq<Seq<char>>, level: Seq<ComboV>, ids: Seq<Vec<usize>>) -> bool {
    &&& ids.len() == level.len()
    &&& forall|c: int| 0 <= c < level.len() ==> #[trigger] named(names, level[c], ids[c]@)
}

/// `ids` names the pins of each combo of each level.
spec fn all_named(names: Seq<Seq<char>>, all: Seq<Seq<ComboV>>, ids: Seq<Vec<Vec<usize>>>) -> bool {
    &&& ids.len() == all.len()
    &&& forall|r: int| 0 <= r < all.len() ==> #[trigger] level_named(names, all[r], ids[r]@)
}

proof fn level_stays_named(
    names: Seq<Seq<char>>,
    more: Seq<Seq<char>>,
    level: Seq<ComboV>,
    ids: Seq<Vec<usize>>,
)
    requires
        grows(names, more),
        level_named(names, level, ids),
    ensures
        level_named(more, level, ids),
{
    assert forall|c: int| 0 <= c < level.len() implies #[trigger] named(more, level[c], ids[c]@) by {
        assert(named(names, level[c], ids[c]@));
    }
}

/// The place of `name` in `names`, where it is added if it is new.
fn name_id(names: &mut Vec<String>, name: &str) -> (r: usize)
    requires
        old(names).deep_view().no_duplicates(),
    ensures
        final(names).deep_view().no_duplicates(),
        grows(old(names).deep_view(), final(names).deep_view()),
        r < final(names)@.len(),
        final(names).deep_view()[r as int] == name@,
{
    let n: usize = names.len();
    let mut i: usize = 0;
    while i < n
        invariant
            *names == *old(names),
            names.deep_view().no_duplicates(),
            n == names@.len(),
            i <= n,
            forall|j: int| 0 <= j < i ==> names.deep_view()[j] != name@,
        decreases n - i,
    {
        if same(names[i].as_str(), name) {
            return i;
        }
        i += 1;
    }
    names.push(name.to_string());
    proof {
        let before = old(names).deep_view();
        let after = names.deep_view();
        assert forall|j: int| 0 <= j < before.len() implies before[j] == #[trigger] after[j] by {}
        assert(after[n as int] == name@);
        assert(after.no_duplicates());
    }
    n
}

/// The places of the pins of a combo.
fn combo_ids(names: &mut Vec<String>, c: &Combo) -> (ids: Vec<usize>)
    requires
        old(names).deep_view().no_duplicates(),
    ensures
        final(names).deep_view().no_duplicates(),
        grows(old(names).deep_view(), final(names).deep_view()),
        named(final(names).deep_view(), c.deep_view(), ids@),
{
    let mut ids: Vec<usize> = Vec::new();
    let n: usize = c.pins.len();
    let mut i: usize = 0;
    while i < n
        invariant
            n == c.pins@.len(),
            i <= n,
            names.deep_view().no_duplicates(),
            grows(old(names).deep_view(), names.deep_view()),
            ids@.len() == i,
            forall|j: int|
                0 <= j < i ==> (#[trigger] ids@[j]) < names@.len() && names.deep_view()[ids@[j] as int]
                    == c.deep_view().pins[j].1.name,
        decreases n - i,
    {
        let ghost before = names.deep_view();
        let id: usize = name_id(names, c.pins[i].1.name.as_str());
        ids.push(id);
        i += 1;
    }
    ids
}

/// The places of the pins of the combos of a level.
fn level_ids(names: &mut Vec<String>, level: &Vec<Combo>) -> (ids: Vec<Vec<usize>>)
    requires
        old(names).deep_view().no_duplicates(),
    ensures
        final(names).deep_view().no_duplicates(),
        grows(old(names).deep_view(), final(names).deep_view()),
        level_named(final(names).deep_view(), level.deep_view(), ids@),
{
    let mut ids: Vec<Vec<usize>> = Vec::new();
    let n: usize = level.len();
    let mut i: usize = 0;
    while i < n
        invariant
            n == level@.len(),
            i <= n,
            names.deep_view().no_duplicates(),
            grows(old(names).deep_view(), names.deep_view()),
            level_named(names.deep_view(), level.deep_view().take(i as int), ids@),
        decreases n - i,
    {
        let ghost before = names.deep_view();
        let one = combo_ids(names, &level[i]);
        proof {
            level_stays_named(before, names.deep_view(), level.deep_view().take(i as int), ids@);
        }
        let ghost so_far = ids@;
        ids.push(one);
        proof {
            let now = level.deep_view().take(i + 1);
            assert forall|c: int| 0 <= c < now.len() implies #[trigger] named(
                names.deep_view(),
                now[c],
                ids@[c]@,
            ) by {
                if c < i {
                    assert(named(names.deep_view(), level.deep_view().take(i as int)[c], so_far[c]@));
                }
            }
        }
        i += 1;
    }
    assert(level.deep_view().take(n as int) =~= level.deep_view());
    ids
}

/// A table of the pins of all combos in which equal numbers stand for equal names.
fn pin_table(all: &Vec<Vec<Combo>>) -> (r: (Vec<String>, Vec<Vec<Vec<usize>>>))
    ensures
        r.0.deep_view().no_duplicates(),
        all_named(r.0.deep_view(), all.deep_view(), r.1@),
{
    let mut names: Vec<String> = Vec::new();
    let mut ids: Vec<Vec<Vec<usize>>> = Vec::new();
    let n: usize = all.len();
    let mut i: usize = 0;
    while i < n
        invariant
            n == all@.len(),
            i <= n,
            names.deep_view().no_duplicates(),
            all_named(names.deep_view(), all.deep_view().take(i as int), ids@),
        decreases n - i,
    {
        let ghost before = names.deep_view();
        let ghost so_far = ids@;
        let one = level_ids(&mut names, &all[i]);
        ids.push(one);
        proof {
            let now = all.deep_view().take(i + 1);
            assert forall|r: int| 0 <= r < now.len() implies #[trigger] level_named(
                names.deep_view(),
                now[r],
                ids@[r]@,
            ) by {
                if r < i {
                    assert(now[r] == all.deep_view().take(i as int)[r]);
                    assert(level_named(before, all.deep_view().take(i as int)[r], so_far[r]@));
                    level_stays_named(before, names.deep_view(), now[r], so_far[r]@);
                }
            }
        }
        i += 1;
    }
    assert(all.deep_view().take(n as int) =~= all.deep_view());
    (names, ids)
}

/// Whether the two lists share a number.
fn share(a: &Vec<usize>, b: &Vec<usize>) -> (r: bool)
    ensures
        r == exists|i: int, j: int|
            0 <= i < a@.len() && 0 <= j < b@.len() && #[trigger] a@[i] == #[trigger] b@[j],
{
    let mut i: usize = 0;
    while i < a.len()
        invariant
            i <= a@.len(),
            forall|x: int, y: int|
                0 <= x < i && 0 <= y < b@.len() ==> #[trigger] a@[x] != #[trigger] b@[y],
        decreases a@.len() - i,
    {
        let mut j: usize = 0;
        while j < b.len()
            invariant
                i < a@.len(),
                j <= b@.len(),
                forall|y: int| 0 <= y < j ==> a@[i as int] != #[trigger] b@[y],
            decreases b@.len() - j,
        {
            if a[i] == b[j] {
                assert(a@[i as int] == b@[j as int]);
                return true;
            }
            j += 1;
        }
        i += 1;
    }
    false
}

/// Sharing a number is sharing a pin.
proof fn sharing_is_clashing(
    names: Seq<Seq<char>>,
    a: ComboV,
    b: ComboV,
    x: Seq<usize>,
    y: Seq<usize>,
    shared: bool,
)
    requires
        names.no_duplicates(),
        named(names, a, x),
        named(names, b, y),
        shared == exists|i: int, j: int|
            0 <= i < x.len() && 0 <= j < y.len() && #[trigger] x[i] == #[trigger] y[j],
    ensures
        clash(a, b) == (a.periph_idx == b.periph_idx || shared),
{
    if shared {
        let (i, j) = choose|i: int, j: int|
            0 <= i < x.len() && 0 <= j < y.len() && #[trigger] x[i] == #[trigger] y[j];
        let pin = a.pins[i].1.name;
        assert(names[x[i] as int] == pin);
        assert(names[y[j] as int] == b.pins[j].1.name);
        assert(takes(a, pin));
        assert(takes(b, pin));
    }
    if exists|pin: Seq<char>| #[trigger] takes(a, pin) && takes(b, pin) {
        let pin = choose|pin: Seq<char>| #[trigger] takes(a, pin) && takes(b, pin);
        let i = choose|i: int| 0 <= i < a.pins.len() && (#[trigger] a.pins[i]).1.name == pin;
        let j = choose|j: int| 0 <= j < b.pins.len() && (#[trigger] b.pins[j]).1.name == pin;
        assert(names[x[i] as int] == names[y[j] as int]);
        assert(x[i] == y[j]);
    }
}

/// The data of a search: the combos by request, their pins as numbers, and the evaluation
/// order.
struct Field<'a> {
    all: &'a Vec<Vec<Combo>>,
    names: Vec<String>,
    ids: Vec<Vec<Vec<usize>>>,
    order: Vec<usize>,
}

impl<'a> Field<'a> {
    spec fn levels(self) -> Seq<Seq<ComboV>> {
        picked(self.all.deep_view(), as_ints(self.order@))
    }

    spec fn wf(self) -> bool {
        &&& self.names.deep_view().no_duplicates()
        &&& all_named(self.names.deep_view(), self.all.deep_view(), self.ids@)
        &&& self.order@.len() == self.all@.len()
        &&& forall|k: int| 0 <= k < self.order@.len() ==> (#[trigger] self.order@[k]) < self.all@.len()
        &&& forall|r: int| 0 <= r < self.all@.len() ==> (#[trigger] self.all@[r])@.len() > 0
    }

    /// The number of combos on a level.
    fn level_size(&self, k: usize) -> (r: usize)
        requires
            self.wf(),
            k < self.order@.len(),
        ensures
            r == self.levels()[k as int].len(),
    {
        let at: usize = self.order[k];
        self.all[at].len()
    }

    /// Whether combo `ci` of the level behind `path` clashes with none of the combos chosen
    /// along `path`.
    fn fits_behind(&self, path: &Vec<usize>, ci: usize) -> (r: bool)
        requires
            self.wf(),
            path@.len() < self.order@.len(),
            ci < self.levels()[path@.len() as int].len(),
            forall|k: int|
                0 <= k < path@.len() ==> (#[trigger] path@[k]) < self.levels()[k].len(),
        ensures
            r == fits(self.levels(), as_ints(path@), self.levels()[path@.len() as int][ci as int]),
    {
        let ghost levels = self.levels();
        let ghost p = as_ints(path@);
        let here: usize = self.order[path.len()];
        let ghost c = levels[path@.len() as int][ci as int];
        assert(c == self.all@[here as int]@[ci as int].deep_view());
        let mut k: usize = 0;
        while k < path.len()
            invariant
                self.wf(),
                levels == self.levels(),
                p == as_ints(path@),
                path@.len() < self.order@.len(),
                here == self.order@[path@.len() as int],
                ci < levels[path@.len() as int].len(),
                c == levels[path@.len() as int][ci as int],
                c == self.all@[here as int]@[ci as int].deep_view(),
                forall|j: int| 0 <= j < path@.len() ==> (#[trigger] path@[j]) < levels[j].len(),
                k <= path@.len(),
                forall|j: int| 0 <= j < k ==> !clash(levels[j][#[trigger] p[j]], c),
            decreases path@.len() - k,
        {
            let there: usize = self.order[k];
            let cj: usize = path[k];
            assert(levels[k as int] == self.all@[there as int].deep_view());
            assert(levels[path@.len() as int] == self.all@[here as int].deep_view());
            let ghost d = levels[k as int][p[k as int]];
            assert(d == self.all@[there as int]@[cj as int].deep_view());
            proof {
                assert(level_named(
                    self.names.deep_view(),
                    self.all.deep_view()[there as int],
                    self.ids@[there as int]@,
                ));
                assert(level_named(
                    self.names.deep_view(),
                    self.all.deep_view()[here as int],
                    self.ids@[here as int]@,
                ));
                assert(named(
                    self.names.deep_view(),
                    self.all.deep_view()[there as int][cj as int],
                    self.ids@[there as int]@[cj as int]@,
                ));
                assert(named(
                    self.names.deep_view(),
                    self.all.deep_view()[here as int][ci as int],
                    self.ids@[here as int]@[ci as int]@,
                ));
            }
            let shared = share(&self.ids[there][cj], &self.ids[here][ci]);
            proof {
                sharing_is_clashing(
                    self.names.deep_view(),
                    d,
                    c,
                    self.ids@[there as int]@[cj as int]@,
                    self.ids@[here as int]@[ci as int]@,
                    shared,
                );
            }
            if shared || self.all[there][cj].periph_idx == self.all[here][ci].periph_idx {
                assert(clash(levels[k as int][p[k as int]], c));
                return false;
            }
            k += 1;
        }
        true
    }
}

proof fn cost_is_small(levels: Seq<Seq<ComboV>>, path: Seq<int>)
    ensures
        -(path.len() * 0x8000_0000_0000_0000) <= path_cost(levels, path) <= path.len()
            * 0x8000_0000_0000_0000,
    decreases path.len(),
{
    if path.len() > 0 {
        cost_is_small(levels, path.drop_last());
    }
}

proof fn floor_is_small(levels: Seq<Seq<ComboV>>, k: int)
    requires
        0 <= k <= levels.len(),
    ensures
        -((levels.len() - k) * 0x8000_0000_0000_0000) <= floor(levels, k) <= (levels.len() - k)
            * 0x8000_0000_0000_0000,
    decreases levels.len() - k,
{
    if k < levels.len() {
        floor_is_small(levels, k + 1);
    }
}

impl<'a> Field<'a> {
    /// The floors of all levels.
    fn floors(&self) -> (r: Vec<i128>)
        requires
            self.wf(),
        ensures
            r@.len() == self.order@.len() + 1,
            forall|k: int| 0 <= k < r@.len() ==> (#[trigger] r@[k]) == floor(self.levels(), k),
    {
        let ghost levels = self.levels();
        let n: usize = self.order.len();
        let mut down: Vec<i128> = Vec::new();
        down.push(0);
        let mut k: usize = n;
        while k > 0
            invariant
                self.wf(),
                levels == self.levels(),
                n == self.order@.len(),
                k <= n,
                down@.len() == n - k + 1,
                forall|j: int| 0 <= j < down@.len() ==> (#[trigger] down@[j]) == floor(levels, n - j),
            decreases k,
        {
            k -= 1;
            let at: usize = self.order[k];
            assert(levels[k as int] == self.all@[at as int].deep_view());
            assert(self.all@[at as int]@.len() > 0);
            let first: i64 = self.all[at][0].cost;
            let rest: i128 = down[n - k - 1];
            assert(rest == floor(levels, k + 1));
            assert(levels[k as int][0].cost == first);
            proof {
                floor_is_small(levels, k + 1);
            }
            down.push(first as i128 + rest);
        }
        let mut out: Vec<i128> = Vec::new();
        let mut i: usize = 0;
        loop
            invariant
                levels == self.levels(),
                n == self.order@.len(),
                i <= n,
                down@.len() == n + 1,
                out@.len() == i,
                forall|j: int| 0 <= j < down@.len() ==> (#[trigger] down@[j]) == floor(levels, n - j),
                forall|j: int| 0 <= j < i ==> (#[trigger] out@[j]) == floor(levels, j),
            decreases n - i,
        {
            assert(down@[n - i] == floor(levels, i as int));
            out.push(down[n - i]);
            if i == n {
                return out;
            }
            i += 1;
        }
    }

    /// Looks for the next combo that fits behind `path`.
    fn scan_level(
        &self,
        path: &Vec<usize>,
        base: i128,
        rest: i128,
        best: &Option<(i128, Vec<usize>)>,
        next: usize,
        spent: u128,
        Ghost(s): Ghost<Search>,
    ) -> (r: (usize, u128, bool))
        requires
            self.wf(),
            path@.len() < self.order@.len(),
            forall|k: int|
                0 <= k < path@.len() ==> (#[trigger] path@[k]) < self.levels()[k].len(),
            s.path == as_ints(path@),
            base == path_cost(self.levels(), s.path),
            rest == floor(self.levels(), path@.len() as int + 1),
            match *best {
                Some(b) => s.best is Some && s.best.unwrap().0 == b.0,
                None => s.best is None,
            },
            spent < 100_000_000,
        ensures
            scan(self.levels(), s, next as int, spent as int) == (r.0 as int, r.1 as int, r.2),
            r.2 ==> r.0 < self.levels()[path@.len() as int].len(),
    {
        let ghost levels = self.levels();
        let at: usize = self.order[path.len()];
        assert(levels[path@.len() as int] == self.all@[at as int].deep_view());
        let n: usize = self.all[at].len();
        let mut ci: usize = next;
        let mut used: u128 = spent;
        let depth: usize = self.order.len();
        proof {
            cost_is_small(levels, s.path);
            floor_is_small(levels, path@.len() as int + 1);
        }
        while ci < n
            invariant
                self.wf(),
                levels == self.levels(),
                path@.len() < self.order@.len(),
                at == self.order@[path@.len() as int],
                levels[path@.len() as int] == self.all@[at as int].deep_view(),
                n == self.all@[at as int]@.len(),
                forall|k: int| 0 <= k < path@.len() ==> (#[trigger] path@[k]) < levels[k].len(),
                s.path == as_ints(path@),
                base == path_cost(levels, s.path),
                rest == floor(levels, path@.len() as int + 1),
                -(path@.len() * 0x8000_0000_0000_0000) <= base <= path@.len() * 0x8000_0000_0000_0000,
                -((levels.len() - path@.len() - 1) * 0x8000_0000_0000_0000) <= rest <= (levels.len()
                    - path@.len() - 1) * 0x8000_0000_0000_0000,
                match *best {
                    Some(b) => s.best is Some && s.best.unwrap().0 == b.0,
                    None => s.best is None,
                },
                depth == self.order@.len(),
                depth == levels.len(),
                spent < 100_000_000,
                next <= ci,
                used == spent + (ci - next),
                scan(levels, s, next as int, spent as int) == scan(levels, s, ci as int, used as int),
            decreases n - ci,
        {
            let cost: i64 = self.all[at][ci].cost;
            assert(levels[path@.len() as int][ci as int].cost == cost);
            if let Some(b) = best {
                if base + cost as i128 + rest >= b.0 {
                    return (ci, used, false);
                }
            }
            if self.fits_behind(path, ci) {
                return (ci, used + 1, true);
            }
            ci += 1;
            used += 1;
        }
        (ci, used, false)
    }
}

/// Each level lists its combos by rising cost.
pub open spec fn cheapest_first(levels: Seq<Seq<ComboV>>) -> bool {
    forall|k: int, i: int, j: int|
        0 <= k < levels.len() && 0 <= i <= j < levels[k].len() ==> (#[trigger] levels[k][i]).cost <= (
        #[trigger] levels[k][j]).cost
}

/// `a` comes before `b`: at the first level where they differ it chooses the earlier combo.
pub open spec fn earlier(a: Seq<int>, b: Seq<int>) -> bool {
    exists|k: int| #[trigger] parts_at(a, b, k) && a[k] < b[k]
}

/// `a` and `b` agree on the first `k` levels.
pub open spec fn parts_at(a: Seq<int>, b: Seq<int>, k: int) -> bool {
    0 <= k < a.len() && k < b.len() && a.take(k) == b.take(k)
}

/// No feasible assignment is cheaper than `best`, and none of the same cost comes before it.
pub open spec fn first_optimum(levels: Seq<Seq<ComboV>>, best: Seq<int>) -> bool {
    forall|q: Seq<int>|
        #[trigger] feasible(levels, q) ==> at_least(levels, best, q)
}

/// `best` is cheaper than `q`, or as cheap and not behind it.
pub open spec fn at_least(levels: Seq<Seq<ComboV>>, best: Seq<int>, q: Seq<int>) -> bool {
    path_cost(levels, best) < path_cost(levels, q) || (path_cost(levels, best) == path_cost(levels, q)
        && (best == q || earlier(best, q)))
}

/// The limit of the search at level `k`.
spec fn limit(s: Search, k: int) -> int {
    if k == s.path.len() {
        s.next
    } else {
        s.path[k]
    }
}

/// The search has passed `q` at level `k`.
spec fn passed_at(q: Seq<int>, s: Search, k: int) -> bool {
    0 <= k <= s.path.len() && k < q.len() && q.take(k) == s.path.take(k) && q[k] < limit(s, k)
}

/// The search has passed `q`.
spec fn passed(q: Seq<int>, s: Search) -> bool {
    exists|k: int| #[trigger] passed_at(q, s, k)
}

/// What is known of a feasible assignment that has been dealt with.
spec fn settled(levels: Seq<Seq<ComboV>>, s: Search, q: Seq<int>) -> bool {
    s.best is Some && (cheapest_first(levels) ==> at_least(levels, s.best.unwrap().1, q))
}

/// What holds at every point of the search.
spec fn search_inv(levels: Seq<Seq<ComboV>>, s: Search) -> bool {
    &&& levels.len() > 0
    &&& apart(levels, s.path)
    &&& s.next >= 0
    &&& match s.best {
        Some(b) => feasible(levels, b.1) && b.0 == path_cost(levels, b.1) && passed(b.1, s),
        None => true,
    }
    &&& forall|q: Seq<int>| #[trigger] feasible(levels, q) && passed(q, s) ==> settled(levels, s, q)
}

proof fn scan_skips(levels: Seq<Seq<ComboV>>, s: Search, ci: int, spent: int)
    requires
        ci >= 0,
    ensures
        ({
            let r = scan(levels, s, ci, spent);
            let level = levels[s.path.len() as int];
            &&& ci <= r.0
            &&& forall|c: int| ci <= c < r.0 ==> !fits(levels, s.path, #[trigger] level[c])
            &&& r.2 ==> r.0 < level.len() && fits(levels, s.path, level[r.0])
            &&& !r.2 ==> r.0 >= level.len() || bounded(levels, s, r.0)
        }),
    decreases levels[s.path.len() as int].len() - ci,
{
    let level = levels[s.path.len() as int];
    if !(ci >= level.len() || bounded(levels, s, ci)) && !fits(levels, s.path, level[ci]) {
        scan_skips(levels, s, ci + 1, spent + 1);
    }
}

/// An assignment costs at least what its first choices cost, plus the floors of the rest.
proof fn rest_costs_floor(levels: Seq<Seq<ComboV>>, q: Seq<int>, m: int, j: int)
    requires
        feasible(levels, q),
        cheapest_first(levels),
        0 <= m <= j <= q.len(),
    ensures
        path_cost(levels, q.take(j)) >= path_cost(levels, q.take(m)) + floor(levels, m) - floor(
            levels,
            j,
        ),
    decreases j - m,
{
    if m < j {
        rest_costs_floor(levels, q, m, j - 1);
        assert(q.take(j).drop_last() =~= q.take(j - 1));
        assert(levels[j - 1][0].cost <= levels[j - 1][q[j - 1]].cost);
        assert(floor(levels, j - 1) == levels[j - 1][0].cost + floor(levels, j));
    }
}

/// A feasible assignment that goes on along the current path, at or behind `next`, is either
/// skipped for a clash or cut by the bound.
proof fn rest_of_level_is_settled(levels: Seq<Seq<ComboV>>, s: Search, q: Seq<int>)
    requires
        search_inv(levels, s),
        s.path.len() < levels.len(),
        feasible(levels, q),
        q.take(s.path.len() as int) == s.path,
        !scan(levels, s, s.next, s.spent + 1).2,
    ensures
        settled(levels, s, q),
{
    let m = s.path.len() as int;
    let level = levels[m];
    let stop = scan(levels, s, s.next, s.spent + 1).0;
    scan_skips(levels, s, s.next, s.spent + 1);
    if q[m] < s.next {
        assert(q.take(m) == s.path.take(m)) by {
            assert(s.path.take(m) =~= s.path);
        }
        assert(passed_at(q, s, m));
    } else if q[m] < stop {
        assert(!fits(levels, s.path, level[q[m]]));
        let k = choose|k: int| 0 <= k < s.path.len() && clash(levels[k][#[trigger] s.path[k]], level[q[m]]);
        assert(q.take(m)[k] == q[k]);
        assert(clash(levels[k][q[k]], levels[m][q[m]]));
        assert(false);
    } else {
        assert(bounded(levels, s, stop));
        let best = s.best.unwrap();
        if cheapest_first(levels) {
            assert(levels[m][stop].cost <= levels[m][q[m]].cost);
            assert(q.take(m + 1).drop_last() =~= q.take(m));
            assert(path_cost(levels, q.take(m + 1)) == path_cost(levels, s.path) + levels[m][q[m]].cost);
            rest_costs_floor(levels, q, m + 1, q.len() as int);
            assert(q.take(q.len() as int) =~= q);
            assert(floor(levels, q.len() as int) == 0);
            assert(path_cost(levels, q) >= best.0);
            let k = choose|k: int| #[trigger] passed_at(best.1, s, k);
            assert(best.1.take(k) == q.take(k)) by {
                assert(s.path.take(k) =~= q.take(m).take(k));
                assert(q.take(m).take(k) =~= q.take(k));
            }
            if k < m {
                assert(q[k] == q.take(m)[k]);
            }
            assert(best.1[k] < q[k]);
            assert(parts_at(best.1, q, k));
            assert(earlier(best.1, q));
        }
    }
}

/// Taking back the last choice leaves what was passed passed.
proof fn passed_after_back(levels: Seq<Seq<ComboV>>, s: Search, t: Search, q: Seq<int>)
    requires
        s.path.len() > 0,
        t.path == s.path.drop_last(),
        t.next == s.path.last() + 1,
        q.len() == levels.len(),
        s.path.len() <= levels.len(),
    ensures
        passed(q, s) ==> passed(q, t),
        passed(q, t) ==> passed(q, s) || q.take(s.path.len() as int) == s.path,
{
    let m = s.path.len() - 1;
    if passed(q, s) {
        let k = choose|k: int| #[trigger] passed_at(q, s, k);
        if k <= m {
            assert(t.path.take(k) =~= s.path.take(k));
            assert(passed_at(q, t, k));
        } else {
            assert(q.take(m) =~= q.take(k).take(m));
            assert(t.path.take(m) =~= s.path.take(k).take(m));
            assert(q[m] == q.take(k)[m]);
            assert(passed_at(q, t, m));
        }
    }
    if passed(q, t) {
        let k = choose|k: int| #[trigger] passed_at(q, t, k);
        assert(t.path.take(k) =~= s.path.take(k));
        if k < m || q[k] < s.path[k] {
            assert(passed_at(q, s, k));
        } else {
            assert(q.take(m + 1) =~= s.path) by {
                assert forall|i: int| 0 <= i < m + 1 implies q.take(m + 1)[i] == s.path[i] by {
                    if i < m {
                        assert(q.take(k)[i] == s.path.take(k)[i]);
                    }
                }
            }
        }
    }
}

proof fn step_keeps_inv(levels: Seq<Seq<ComboV>>, s: Search)
    requires
        search_inv(levels, s),
    ensures
        match step(levels, s) {
            Some(t) => search_inv(levels, t),
            None => forall|q: Seq<int>| #[trigger] feasible(levels, q) ==> settled(levels, s, q),
        },
{
    let n = levels.len() as int;
    if s.path.len() == n {
        let t = step(levels, s).unwrap();
        let q0 = s.path;
        assert(feasible(levels, q0));
        assert(apart(levels, t.path)) by {
            assert forall|j: int, k: int| 0 <= j < k < t.path.len() implies !clash(
                levels[j][#[trigger] t.path[j]],
                levels[k][#[trigger] t.path[k]],
            ) by {
                assert(!clash(levels[j][s.path[j]], levels[k][s.path[k]]));
            }
        }
        assert(passed(q0, t)) by {
            assert(q0.take(n - 1) =~= t.path.take(n - 1));
            assert(passed_at(q0, t, n - 1));
        }
        if s.best is Some {
            passed_after_back(levels, s, t, s.best.unwrap().1);
        }
        assert forall|q: Seq<int>| #[trigger] feasible(levels, q) && passed(q, t) implies settled(
            levels,
            t,
            q,
        ) by {
            passed_after_back(levels, s, t, q);
            if passed(q, s) {
                assert(settled(levels, s, q));
            } else {
                assert(q.take(n) =~= q);
                assert(q == q0);
                if s.best is Some && path_cost(levels, q0) >= s.best.unwrap().0 {
                    let b = s.best.unwrap().1;
                    let k = choose|k: int| #[trigger] passed_at(b, s, k);
                    assert(parts_at(b, q0, k));
                    assert(earlier(b, q0));
                }
            }
        }
    } else {
        let m = s.path.len() as int;
        let (ci, spent, placed) = scan(levels, s, s.next, s.spent + 1);
        scan_skips(levels, s, s.next, s.spent + 1);
        if placed {
            let t = step(levels, s).unwrap();
            assert(t.path == s.path.push(ci));
            assert(apart(levels, t.path)) by {
                assert forall|j: int, k: int| 0 <= j < k < t.path.len() implies !clash(
                    levels[j][#[trigger] t.path[j]],
                    levels[k][#[trigger] t.path[k]],
                ) by {
                    assert(t.path[j] == s.path[j]);
                    if k < m {
                        assert(t.path[k] == s.path[k]);
                    } else {
                        assert(!clash(levels[j][s.path[j]], levels[m][ci]));
                    }
                }
            }
            if s.best is Some {
                let b = s.best.unwrap().1;
                let k = choose|k: int| #[trigger] passed_at(b, s, k);
                assert(s.path.take(k) =~= t.path.take(k));
                assert(passed_at(b, t, k));
            }
            assert forall|q: Seq<int>| #[trigger] feasible(levels, q) && passed(q, t) implies settled(
                levels,
                t,
                q,
            ) by {
                let k = choose|k: int| #[trigger] passed_at(q, t, k);
                if k <= m {
                    assert(s.path.take(k) =~= t.path.take(k));
                }
                if k < m || (k == m && q[k] < s.next) {
                    assert(passed_at(q, s, k));
                } else if k == m {
                    assert(!fits(levels, s.path, levels[m][q[m]]));
                    let i = choose|i: int|
                        0 <= i < s.path.len() && clash(levels[i][#[trigger] s.path[i]], levels[m][q[m]]);
                    assert(q.take(m)[i] == q[i]);
                    assert(s.path.take(m)[i] == s.path[i]);
                    assert(clash(levels[i][q[i]], levels[m][q[m]]));
                    assert(false);
                } else {
                    assert(q[k] >= 0);
                    assert(false);
                }
                assert(settled(levels, s, q));
            }
        } else if m == 0 {
            assert forall|q: Seq<int>| #[trigger] feasible(levels, q) implies settled(levels, s, q) by {
                assert(q.take(0) =~= s.path);
                rest_of_level_is_settled(levels, s, q);
            }
        } else {
            let t = step(levels, s).unwrap();
            assert(apart(levels, t.path)) by {
                assert forall|j: int, k: int| 0 <= j < k < t.path.len() implies !clash(
                    levels[j][#[trigger] t.path[j]],
                    levels[k][#[trigger] t.path[k]],
                ) by {
                    assert(!clash(levels[j][s.path[j]], levels[k][s.path[k]]));
                }
            }
            if s.best is Some {
                passed_after_back(levels, s, t, s.best.unwrap().1);
            }
            assert forall|q: Seq<int>| #[trigger] feasible(levels, q) && passed(q, t) implies settled(
                levels,
                t,
                q,
            ) by {
                passed_after_back(levels, s, t, q);
                if !passed(q, s) {
                    rest_of_level_is_settled(levels, s, q);
                }
                assert(settled(levels, s, q));
            }
        }
    }
}

/// What the outcome of a search says.
pub open spec fn outcome_holds(levels: Seq<Seq<ComboV>>, outcome: AssignOutcomeV) -> bool {
    match outcome {
        AssignOutcomeV::Solved { chosen, capped } => feasible(levels, chosen) && (!capped
            && cheapest_first(levels) ==> first_optimum(levels, chosen)),
        AssignOutcomeV::Infeasible => forall|q: Seq<int>| !feasible(levels, q),
        AssignOutcomeV::Unknown => true,
    }
}

proof fn run_holds(levels: Seq<Seq<ComboV>>, s: Search)
    requires
        search_inv(levels, s),
    ensures
        outcome_holds(levels, run(levels, s)),
    decreases checks_left(s),
{
    if s.spent >= SOLVER_BUDGET && s.best is Some {
    } else if s.spent >= SOLVER_HARD_BUDGET {
    } else {
        step_spends(levels, s);
        step_keeps_inv(levels, s);
        match step(levels, s) {
            Some(t) => run_holds(levels, t),
            None => {
                if s.best is None {
                    assert forall|q: Seq<int>| !feasible(levels, q) by {
                        if feasible(levels, q) {
                            assert(settled(levels, s, q));
                        }
                    }
                } else {
                    let b = s.best.unwrap().1;
                    if cheapest_first(levels) {
                        assert forall|q: Seq<int>| #[trigger] feasible(levels, q) implies at_least(
                            levels,
                            b,
                            q,
                        ) by {
                            assert(settled(levels, s, q));
                        }
                    }
                }
            },
        }
    }
}

/// The search is sound: what it solves is feasible, what it calls infeasible has no
/// assignment, and an uncapped answer over cost-sorted candidates is the first of the
/// cheapest assignments.
pub proof fn search_is_sound(levels: Seq<Seq<ComboV>>)
    requires
        levels.len() > 0,
    ensures
        outcome_holds(levels, run(levels, start())),
{
    let s = start();
    assert(search_inv(levels, s)) by {
        assert forall|q: Seq<int>| #[trigger] feasible(levels, q) && passed(q, s) implies settled(
            levels,
            s,
            q,
        ) by {
            let k = choose|k: int| #[trigger] passed_at(q, s, k);
            assert(q[0] >= 0);
        }
    }
    run_holds(levels, s);
}

/// The choices by request, from the choices by level.
fn spread(order: &Vec<usize>, path: &Vec<usize>) -> (r: Vec<usize>)
    requires
        is_permutation(as_ints(order@), order@.len()),
        path@.len() == order@.len(),
    ensures
        as_ints(r@) == by_request(as_ints(order@), as_ints(path@)),
{
    let ghost p = as_ints(order@);
    let n: usize = order.len();
    let mut r: Vec<usize> = Vec::new();
    let mut i: usize = 0;
    while i < n
        invariant
            i <= n,
            r@.len() == i,
        decreases n - i,
    {
        r.push(0);
        i += 1;
    }
    let mut k: usize = 0;
    while k < n
        invariant
            p == as_ints(order@),
            is_permutation(p, n as nat),
            n == order@.len(),
            n == path@.len(),
            n == r@.len(),
            k <= n,
            forall|j: int| 0 <= j < k ==> r@[#[trigger] p[j]] == path@[j],
        decreases n - k,
    {
        let at: usize = order[k];
        assert(p[k as int] == at);
        r.set(at, path[k]);
        k += 1;
    }
    proof {
        let want = by_request(p, as_ints(path@));
        assert forall|i: int| 0 <= i < n implies as_ints(r@)[i] == want[i] by {
            permutation_is_onto(p, n as nat, i);
            let j = p.index_of(i);
            assert(p[j] == i);
            assert(r@[p[j]] == path@[j]);
        }
        assert(as_ints(r@) =~= want);
    }
    r
}

proof fn take_of_ints(path: Seq<usize>, k: int)
    requires
        0 <= k <= path.len(),
    ensures
        as_ints(path.take(k)) == as_ints(path).take(k),
{
    assert(as_ints(path.take(k)) =~= as_ints(path).take(k));
}

/// Chooses one combo for each request so that no two of them share an instance or a pin.
pub fn assign(reqs: &Vec<RReq>, all_combos: &Vec<Vec<Combo>>) -> (r: AssignOutcome)
    requires
        reqs@.len() == all_combos@.len(),
        forall|i: int| 0 <= i < all_combos@.len() ==> (#[trigger] all_combos@[i])@.len() > 0,
    ensures
        r.deep_view() == assigned(reqs.deep_view(), all_combos.deep_view()),
{
    let n: usize = reqs.len();
    if n == 0 {
        let chosen: Vec<usize> = Vec::new();
        assert(as_ints(chosen@) =~= Seq::empty());
        return AssignOutcome::Solved { chosen, capped: false };
    }
    let mut keys: Vec<(bool, usize)> = Vec::new();
    let mut i: usize = 0;
    while i < n
        invariant
            n == reqs@.len(),
            n == all_combos@.len(),
            i <= n,
            keys@.len() == i,
            forall|j: int|
                0 <= j < i ==> (#[trigger] keys@[j]) == (!reqs@[j].lock, all_combos@[j]@.len() as usize),
        decreases n - i,
    {
        keys.push((!reqs[i].lock, all_combos[i].len()));
        i += 1;
    }
    let order = rank_order(&keys);
    let ghost rv = reqs.deep_view();
    let ghost av = all_combos.deep_view();
    proof {
        assert(keys.deep_view() =~= Seq::new(
            rv.len(),
            |i: int| (!rv[i].lock, av[i].len() as usize),
        ));
        ranking_is_stable::<(bool, usize)>(keys.deep_view());
    }
    assert(as_ints(order@) == evaluation_order(rv, av));
    let (names, ids) = pin_table(all_combos);
    let field = Field { all: all_combos, names, ids, order };
    let ghost levels = field.levels();
    let floors = field.floors();
    let mut path: Vec<usize> = Vec::new();
    let mut costs: Vec<i128> = Vec::new();
    costs.push(0);
    let mut next: usize = 0;
    let mut best: Option<(i128, Vec<usize>)> = None;
    let mut spent: u128 = 0;
    let ghost mut s = start();
    assert(as_ints(path@) =~= s.path);
    loop
        invariant
            field.wf(),
            levels == field.levels(),
            n > 0,
            n == field.order@.len(),
            n == levels.len(),
            is_permutation(as_ints(field.order@), n as nat),
            floors@.len() == n + 1,
            forall|k: int| 0 <= k < floors@.len() ==> (#[trigger] floors@[k]) == floor(levels, k),
            path@.len() <= n,
            forall|k: int| 0 <= k < path@.len() ==> (#[trigger] path@[k]) < levels[k].len(),
            costs@.len() == path@.len() + 1,
            forall|k: int|
                0 <= k <= path@.len() ==> (#[trigger] costs@[k]) == path_cost(
                    levels,
                    as_ints(path@).take(k),
                ),
            s.path == as_ints(path@),
            s.next == next,
            s.spent == spent,
            match best {
                Some(b) => s.best is Some && s.best.unwrap().0 == b.0 && s.best.unwrap().1 == as_ints(
                    b.1@,
                ) && b.1@.len() == n,
                None => s.best is None,
            },
            run(levels, s) == run(levels, start()),
            rv == reqs.deep_view(),
            av == all_combos.deep_view(),
            rv.len() == n,
            levels == picked(av, evaluation_order(rv, av)),
            as_ints(field.order@) == evaluation_order(rv, av),
        decreases checks_left(s),
    {
        if spent >= SOLVER_BUDGET {
            if let Some(b) = &best {
                let chosen = spread(&field.order, &b.1);
                return AssignOutcome::Solved { chosen, capped: true };
            }
        }
        if spent >= SOLVER_HARD_BUDGET {
            return AssignOutcome::Unknown;
        }
        let ghost t = step(levels, s);
        proof {
            step_spends(levels, s);
            assert(as_ints(path@).take(path@.len() as int) =~= as_ints(path@));
        }
        let depth: usize = path.len();
        let base: i128 = costs[depth];
        if depth == n {
            let better = match &best {
                Some(b) => base < b.0,
                None => true,
            };
            if better {
                best = Some((base, path.clone()));
            }
            spent += 1;
            let last: usize = path[depth - 1];
            let size: usize = field.level_size(depth - 1);
            assert(path@[depth - 1] < size);
            proof {
                assert(as_ints(path@).last() == last);
                take_of_ints(path@, depth - 1);
                assert(as_ints(path@).drop_last() =~= as_ints(path@.drop_last()));
            }
            let ghost before = path@;
            path.pop();
            costs.pop();
            next = last + 1;
            proof {
                assert(path@ =~= before.drop_last());
                assert forall|k: int| 0 <= k <= path@.len() implies (#[trigger] costs@[k])
                    == path_cost(levels, as_ints(path@).take(k)) by {
                    assert(as_ints(path@).take(k) =~= as_ints(before).take(k));
                }
                s = t.unwrap();
            }
        } else {
            let rest: i128 = floors[depth + 1];
            let (ci, used, placed) = field.scan_level(
                &path,
                base,
                rest,
                &best,
                next,
                spent + 1,
                Ghost(s),
            );
            spent = used;
            if placed {
                let at: usize = field.order[depth];
                assert(levels[depth as int] == field.all@[at as int].deep_view());
                let cost: i64 = field.all[at][ci].cost;
                assert(levels[depth as int][ci as int].cost == cost);
                proof {
                    cost_is_small(levels, s.path);
                }
                let ghost before = path@;
                path.push(ci);
                costs.push(base + cost as i128);
                next = 0;
                proof {
                    assert(as_ints(path@) =~= s.path.push(ci as int));
                    assert forall|k: int| 0 <= k <= path@.len() implies (#[trigger] costs@[k])
                        == path_cost(levels, as_ints(path@).take(k)) by {
                        if k <= before.len() {
                            assert(as_ints(path@).take(k) =~= as_ints(before).take(k));
                        } else {
                            assert(as_ints(path@).take(k) =~= as_ints(path@));
                            assert(as_ints(path@).drop_last() =~= as_ints(before));
                        }
                    }
                    s = t.unwrap();
                }
            } else if depth == 0 {
                return match &best {
                    Some(b) => AssignOutcome::Solved {
                        chosen: spread(&field.order, &b.1),
                        capped: false,
                    },
                    None => AssignOutcome::Infeasible,
                };
            } else {
                let last: usize = path[depth - 1];
                let size: usize = field.level_size(depth - 1);
                assert(path@[depth - 1] < size);
                proof {
                    assert(as_ints(path@).last() == last);
                    assert(as_ints(path@).drop_last() =~= as_ints(path@.drop_last()));
                }
                let ghost before = path@;
                path.pop();
                costs.pop();
                next = last + 1;
                proof {
                    assert(path@ =~= before.drop_last());
                    assert forall|k: int| 0 <= k <= path@.len() implies (#[trigger] costs@[k])
                        == path_cost(levels, as_ints(path@).take(k)) by {
                        assert(as_ints(path@).take(k) =~= as_ints(before).take(k));
                    }
                    s = t.unwrap();
                }
            }
        }
    }
}

/// `chosen` names an existing combo for each request, and no two of them clash.
pub open spec fn compatible(all: Seq<Seq<ComboV>>, chosen: Seq<int>) -> bool {
    &&& chosen.len() == all.len()
    &&& forall|i: int| 0 <= i < chosen.len() ==> 0 <= (#[trigger] chosen[i]) < all[i].len()
    &&& forall|i: int, j: int|
        0 <= i < chosen.len() && 0 <= j < chosen.len() && i != j ==> !clash(
            all[i][#[trigger] chosen[i]],
            all[j][#[trigger] chosen[j]],
        )
}

/// The total cost of the chosen combos, added up in the order `order`.
pub open spec fn total_cost(all: Seq<Seq<ComboV>>, order: Seq<int>, chosen: Seq<int>) -> int {
    path_cost(picked(all, order), picked(chosen, order))
}

/// Each request lists its combos by rising cost.
pub open spec fn sorted_by_cost(all: Seq<Seq<ComboV>>) -> bool {
    cheapest_first(all)
}

proof fn clash_is_symmetric(a: ComboV, b: ComboV)
    ensures
        clash(a, b) == clash(b, a),
{
    if exists|pin: Seq<char>| #[trigger] takes(a, pin) && takes(b, pin) {
        let pin = choose|pin: Seq<char>| #[trigger] takes(a, pin) && takes(b, pin);
        assert(takes(b, pin) && takes(a, pin));
    }
    if exists|pin: Seq<char>| #[trigger] takes(b, pin) && takes(a, pin) {
        let pin = choose|pin: Seq<char>| #[trigger] takes(b, pin) && takes(a, pin);
        assert(takes(a, pin) && takes(b, pin));
    }
}

proof fn compatible_by_level(all: Seq<Seq<ComboV>>, order: Seq<int>, chosen: Seq<int>)
    requires
        is_permutation(order, all.len()),
        chosen.len() == all.len(),
    ensures
        compatible(all, chosen) == feasible(picked(all, order), picked(chosen, order)),
{
    let levels = picked(all, order);
    let path = picked(chosen, order);
    if compatible(all, chosen) {
        assert forall|k: int| 0 <= k < path.len() implies 0 <= (#[trigger] path[k])
            < levels[k].len() by {
            assert(0 <= chosen[order[k]] < all[order[k]].len());
        }
        assert forall|j: int, k: int| 0 <= j < k < path.len() implies !clash(
            levels[j][#[trigger] path[j]],
            levels[k][#[trigger] path[k]],
        ) by {
            assert(order[j] != order[k]);
            assert(!clash(all[order[j]][chosen[order[j]]], all[order[k]][chosen[order[k]]]));
        }
    }
    if feasible(levels, path) {
        assert forall|i: int| 0 <= i < chosen.len() implies 0 <= (#[trigger] chosen[i])
            < all[i].len() by {
            permutation_is_onto(order, all.len(), i);
            let k = order.index_of(i);
            assert(0 <= path[k] < levels[k].len());
        }
        assert forall|i: int, j: int|
            0 <= i < chosen.len() && 0 <= j < chosen.len() && i != j implies !clash(
            all[i][#[trigger] chosen[i]],
            all[j][#[trigger] chosen[j]],
        ) by {
            permutation_is_onto(order, all.len(), i);
            permutation_is_onto(order, all.len(), j);
            let a = order.index_of(i);
            let b = order.index_of(j);
            assert(path[a] == chosen[i] && path[b] == chosen[j]);
            if a < b {
                assert(!clash(levels[a][path[a]], levels[b][path[b]]));
            } else {
                assert(!clash(levels[b][path[b]], levels[a][path[a]]));
                clash_is_symmetric(all[i][chosen[i]], all[j][chosen[j]]);
            }
        }
    }
}

/// The assignment is sound: the chosen combos are compatible, an infeasible verdict leaves
/// no compatible choice, and an uncapped answer over cost-sorted combos is cheapest.
pub proof fn assignment_is_sound(reqs: Seq<RReqV>, all: Seq<Seq<ComboV>>)
    requires
        reqs.len() == all.len(),
    ensures
        match assigned(reqs, all) {
            AssignOutcomeV::Solved { chosen, capped } => {
                &&& compatible(all, chosen)
                &&& !capped && sorted_by_cost(all) ==> forall|other: Seq<int>| #[trigger]
                    compatible(all, other) ==> total_cost(all, evaluation_order(reqs, all), chosen)
                        <= total_cost(all, evaluation_order(reqs, all), other)
            },
            AssignOutcomeV::Infeasible => forall|other: Seq<int>| !compatible(all, other),
            AssignOutcomeV::Unknown => true,
        },
{
    let order = evaluation_order(reqs, all);
    let keys = Seq::new(reqs.len(), |i: int| (!reqs[i].lock, all[i].len() as usize));
    ranking_is_stable::<(bool, usize)>(keys);
    let levels = picked(all, order);
    if reqs.len() == 0 {
        let none = Seq::<int>::empty();
        assert(assigned(reqs, all) == (AssignOutcomeV::Solved { chosen: none, capped: false }));
        assert forall|other: Seq<int>| #[trigger] compatible(all, other) implies total_cost(
            all,
            order,
            none,
        ) <= total_cost(all, order, other) by {
            assert(other =~= none);
        }
    } else {
        search_is_sound(levels);
        match run(levels, start()) {
            AssignOutcomeV::Solved { chosen: path, capped } => {
                let chosen = by_request(order, path);
                assert(picked(chosen, order) =~= path) by {
                    assert forall|k: int| 0 <= k < path.len() implies picked(chosen, order)[k]
                        == path[k] by {
                        assert(order.index_of(order[k]) == k) by {
                            assert(order.contains(order[k]));
                        }
                    }
                }
                compatible_by_level(all, order, chosen);
                if !capped && sorted_by_cost(all) {
                    assert(cheapest_first(levels)) by {
                        assert forall|k: int, i: int, j: int|
                            0 <= k < levels.len() && 0 <= i <= j < levels[k].len() implies (
                        #[trigger] levels[k][i]).cost <= (#[trigger] levels[k][j]).cost by {
                            assert(all[order[k]][i].cost <= all[order[k]][j].cost);
                        }
                    }
                    assert forall|other: Seq<int>| #[trigger] compatible(all, other) implies total_cost(
                        all,
                        order,
                        chosen,
                    ) <= total_cost(all, order, other) by {
                        compatible_by_level(all, order, other);
                        assert(feasible(levels, picked(other, order)));
                        assert(at_least(levels, path, picked(other, order)));
                    }
                }
            },
            AssignOutcomeV::Infeasible => {
                assert forall|other: Seq<int>| !compatible(all, other) by {
                    if compatible(all, other) {
                        compatible_by_level(all, order, other);
                    }
                }
            },
            AssignOutcomeV::Unknown => {},
        }
    }
}

/// The checks that exploring everything from level `k` on takes at most.
pub open spec fn full_search(levels: Seq<Seq<ComboV>>, k: int) -> int
    decreases levels.len() - k,
{
    if k >= levels.len() {
        1
    } else {
        1 + levels[k].len() * (2 + full_search(levels, k + 1))
    }
}

/// What is left to explore at level `k` behind the choice made there.
spec fn behind(levels: Seq<Seq<ComboV>>, path: Seq<int>, k: int) -> int {
    1 + (levels[k].len() - path[k] - 1) * (2 + full_search(levels, k + 1))
}

/// What is left to explore behind the choices made along `path`.
spec fn all_behind(levels: Seq<Seq<ComboV>>, path: Seq<int>) -> int
    decreases path.len(),
{
    if path.len() == 0 {
        0
    } else {
        all_behind(levels, path.drop_last()) + behind(levels, path, path.len() - 1)
    }
}

/// What is left to explore.
spec fn left(levels: Seq<Seq<ComboV>>, s: Search) -> int {
    let m = s.path.len() as int;
    all_behind(levels, s.path) + 1 + if m < levels.len() {
        (levels[m].len() - s.next) * (2 + full_search(levels, m + 1))
    } else {
        0
    }
}

proof fn full_search_is_positive(levels: Seq<Seq<ComboV>>, k: int)
    ensures
        full_search(levels, k) >= 1,
    decreases levels.len() - k,
{
    if k < levels.len() {
        full_search_is_positive(levels, k + 1);
        let n = levels[k].len() as int;
        let t = full_search(levels, k + 1);
        assert(n * (2 + t) >= 0) by (nonlinear_arith)
            requires
                n >= 0,
                t >= 1,
        ;
    }
}

proof fn behind_is_positive(levels: Seq<Seq<ComboV>>, path: Seq<int>)
    requires
        path.len() <= levels.len(),
        forall|k: int| 0 <= k < path.len() ==> 0 <= (#[trigger] path[k]) < levels[k].len(),
    ensures
        all_behind(levels, path) >= 0,
    decreases path.len(),
{
    if path.len() > 0 {
        let k = path.len() - 1;
        behind_is_positive(levels, path.drop_last());
        full_search_is_positive(levels, k + 1);
        let a = levels[k].len() - path[k] - 1;
        let t = full_search(levels, k + 1);
        assert(a * (2 + t) >= 0) by (nonlinear_arith)
            requires
                a >= 0,
                t >= 1,
        ;
    }
}

proof fn scan_charges(levels: Seq<Seq<ComboV>>, s: Search, ci: int, spent: int)
    requires
        0 <= ci <= levels[s.path.len() as int].len(),
    ensures
        ({
            let r = scan(levels, s, ci, spent);
            &&& ci <= r.0 <= levels[s.path.len() as int].len()
            &&& r.2 ==> r.1 == spent + (r.0 - ci) + 1 && r.0 < levels[s.path.len() as int].len()
            &&& !r.2 ==> r.1 == spent + (r.0 - ci)
        }),
    decreases levels[s.path.len() as int].len() - ci,
{
    let level = levels[s.path.len() as int];
    if !(ci >= level.len() || bounded(levels, s, ci)) && !fits(levels, s.path, level[ci]) {
        scan_charges(levels, s, ci + 1, spent + 1);
    }
}

spec fn in_bounds(levels: Seq<Seq<ComboV>>, s: Search) -> bool {
    &&& s.path.len() <= levels.len()
    &&& forall|k: int| 0 <= k < s.path.len() ==> 0 <= (#[trigger] s.path[k]) < levels[k].len()
    &&& s.path.len() < levels.len() ==> 0 <= s.next <= levels[s.path.len() as int].len()
    &&& levels.len() > 0
}

/// A step spends no more than it takes off what is left to explore.
proof fn step_pays(levels: Seq<Seq<ComboV>>, s: Search)
    requires
        in_bounds(levels, s),
    ensures
        step(levels, s) matches Some(t) ==> in_bounds(levels, t) && t.spent + left(levels, t) <= s.spent
            + left(levels, s),
{
    let m = s.path.len() as int;
    if step(levels, s) is Some {
        let t = step(levels, s).unwrap();
        if m == levels.len() {
            assert(left(levels, t) == left(levels, s) - 1);
        } else {
            let (ci, spent, placed) = scan(levels, s, s.next, s.spent + 1);
            scan_charges(levels, s, s.next, s.spent + 1);
            full_search_is_positive(levels, m + 1);
            let w = full_search(levels, m + 1);
            let n = levels[m].len() as int;
            if placed {
                assert(t.path.drop_last() =~= s.path);
                assert(left(levels, t) == all_behind(levels, s.path) + 1 + (n - ci - 1) * (2 + w) + w) by {
                    if m + 1 < levels.len() {
                        assert(w == 1 + levels[m + 1].len() * (2 + full_search(levels, m + 2)));
                    }
                }
                let nx = s.next;
                assert((n - nx) * (2 + w) >= (n - ci - 1) * (2 + w) + w + (ci - nx + 2)) by (nonlinear_arith)
                    requires
                        0 <= nx <= ci < n,
                        w >= 1,
                ;
            } else {
                let nx = s.next;
                assert((n - nx) * (2 + w) >= ci - nx) by (nonlinear_arith)
                    requires
                        0 <= nx <= ci <= n,
                        w >= 1,
                ;
                assert(left(levels, t) == all_behind(levels, s.path));
            }
        }
    }
}

proof fn small_run_ends(levels: Seq<Seq<ComboV>>, s: Search)
    requires
        in_bounds(levels, s),
        s.spent + left(levels, s) <= SOLVER_BUDGET,
    ensures
        run(levels, s) !is Unknown,
        run(levels, s) matches AssignOutcomeV::Solved { capped, .. } ==> !capped,
    decreases checks_left(s),
{
    behind_is_positive(levels, s.path);
    let m = s.path.len() as int;
    if m < levels.len() {
        full_search_is_positive(levels, m + 1);
        let a = levels[m].len() - s.next;
        let t = full_search(levels, m + 1);
        assert(a * (2 + t) >= 0) by (nonlinear_arith)
            requires
                a >= 0,
                t >= 1,
        ;
    }
    assert(left(levels, s) >= 1);
    step_spends(levels, s);
    step_pays(levels, s);
    if step(levels, s) is Some {
        small_run_ends(levels, step(levels, s).unwrap());
    }
}

/// A search whose full exploration fits the budget is decided and uncapped.
pub proof fn small_search_is_decided(levels: Seq<Seq<ComboV>>)
    requires
        levels.len() > 0,
        full_search(levels, 0) <= SOLVER_BUDGET,
    ensures
        run(levels, start()) !is Unknown,
        run(levels, start()) matches AssignOutcomeV::Solved { capped, .. } ==> !capped,
{
    assert(left(levels, start()) == full_search(levels, 0));
    small_run_ends(levels, start());
}

} // verus!
