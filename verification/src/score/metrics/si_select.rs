//! Selections of the signal integrity metrics: differential pairs, vias of fast nets, groups of
//! nets that are to have equal lengths.
use vstd::prelude::*;

use crate::number::{below, zero, Real};
use crate::order::as_ints;
use crate::score::board::{BoardModel, BoardModelV, Via, ViaV};
use crate::score::classify::NetInfo;
use crate::score::metrics::context::{check_name, find_stats, name_is, stats_at, Classes, Trait};
use crate::score::net_stats::{NetStats, NetStatsV, TINY};
use crate::select::{asks, find_places, places, Test};
use crate::sorted_map::{entry, map_find, map_put, put_entry};
use crate::text::same;

verus! {

/// The place of the first net of the given name.
pub open spec fn net_place(nets: Seq<(i64, Seq<char>)>, name: Seq<char>) -> Option<int>
    decreases nets.len(),
{
    if nets.len() == 0 {
        None
    } else if nets[0].1 == name {
        Some(0)
    } else {
        match net_place(nets.drop_first(), name) {
            Some(k) => Some(k + 1),
            None => None,
        }
    }
}

/// The place of the first net of the given name.
pub fn find_net_place(nets: &Vec<(i64, String)>, name: &str) -> (r: Option<usize>)
    ensures
        match r {
            Some(k) => net_place(nets.deep_view(), name@) == Some(k as int) && k < nets@.len(),
            None => net_place(nets.deep_view(), name@) is None,
        },
{
    let ghost all = nets.deep_view();
    let n: usize = nets.len();
    let mut i: usize = 0;
    assert(all.skip(0) =~= all);
    while i < n
        invariant
            n == nets@.len(),
            all == nets.deep_view(),
            i <= n,
            net_place(all, name@) == match net_place(all.skip(i as int), name@) {
                Some(k) => Some(k + i),
                None => None,
            },
        decreases n - i,
    {
        assert(all.skip(i as int).drop_first() =~= all.skip(i + 1));
        assert(all.skip(i as int)[0] == (nets@[i as int].0, nets@[i as int].1@));
        if same(nets[i].1.as_str(), name) {
            return Some(i);
        }
        i += 1;
    }
    None
}

/// The other net of a differential pair that the net is the positive side of, if both are on the
/// board and the net is fast.
pub open spec fn peer_of(b: BoardModelV, classes: Classes, k: int) -> Option<int> {
    match map_find(classes, b.nets[k].1) {
        Some(i) => if name_is(classes, b.nets[k].1, Trait::HighSpeed) && i.diff_pair_role == Some(
            "p"@,
        ) {
            match i.diff_pair_peer {
                Some(peer) => net_place(b.nets, peer),
                None => None,
            }
        } else {
            None
        },
        None => None,
    }
}

/// The differential pairs whose positive side is among the first `n` nets.
pub open spec fn pairs_of(b: BoardModelV, classes: Classes, n: int) -> Seq<(int, int)>
    decreases n,
{
    if n <= 0 {
        Seq::empty()
    } else {
        match peer_of(b, classes, n - 1) {
            Some(p) => pairs_of(b, classes, n - 1).push((n - 1, p)),
            None => pairs_of(b, classes, n - 1),
        }
    }
}

/// The differential pairs of a board, each once, by the places of their nets.
pub open spec fn diff_pairs(b: BoardModelV, classes: Classes) -> Seq<(int, int)> {
    pairs_of(b, classes, b.nets.len() as int)
}

/// The pairs as mathematical integers.
pub open spec fn pairs_as_ints(p: Seq<(usize, usize)>) -> Seq<(int, int)> {
    Seq::new(p.len(), |i: int| (p[i].0 as int, p[i].1 as int))
}

/// The differential pairs of a board, each once, by the places of their nets.
pub fn find_diff_pairs(board: &BoardModel, classes: &Vec<(String, NetInfo)>) -> (r: Vec<
    (usize, usize),
>)
    ensures
        pairs_as_ints(r@) == diff_pairs(board.deep_view(), classes.deep_view()),
        forall|i: int|
            0 <= i < r@.len() ==> (#[trigger] r@[i]).0 < board.nets@.len() && r@[i].1
                < board.nets@.len(),
{
    let ghost bv = board.deep_view();
    let ghost cv = classes.deep_view();
    let n: usize = board.nets.len();
    let mut out: Vec<(usize, usize)> = Vec::new();
    let mut i: usize = 0;
    assert(pairs_as_ints(out@) =~= pairs_of(bv, cv, 0));
    while i < n
        invariant
            n == board.nets@.len(),
            i <= n,
            bv == board.deep_view(),
            cv == classes.deep_view(),
            pairs_as_ints(out@) == pairs_of(bv, cv, i as int),
            forall|j: int|
                0 <= j < out@.len() ==> (#[trigger] out@[j]).0 < board.nets@.len() && out@[j].1
                    < board.nets@.len(),
        decreases n - i,
    {
        let ghost before = pairs_as_ints(out@);
        assert(bv.nets[i as int] == (board.nets@[i as int].0, board.nets@[i as int].1@));
        let mut peer: Option<usize> = None;
        match entry(classes, &board.nets[i].1) {
            Some(info) => {
                let positive: bool = match &info.diff_pair_role {
                    Some(role) => same(role.as_str(), "p"),
                    None => false,
                };
                if check_name(classes, &board.nets[i].1, Trait::HighSpeed) && positive {
                    match &info.diff_pair_peer {
                        Some(name) => {
                            peer = find_net_place(&board.nets, name.as_str());
                        },
                        None => {},
                    }
                }
            },
            None => {},
        }
        match peer {
            Some(p) => {
                out.push((i, p));
                assert(pairs_as_ints(out@) =~= before.push((i as int, p as int)));
            },
            None => {},
        }
        i += 1;
    }
    out
}

/// The labels of differential pairs.
pub open spec fn pair_labels(b: BoardModelV, pairs: Seq<(int, int)>) -> Seq<Seq<char>> {
    Seq::new(pairs.len(), |i: int| b.nets[pairs[i].0].1 + "/"@ + b.nets[pairs[i].1].1)
}

/// The net of a listed number is what the trait says; a number that the board does not list is
/// nothing.
pub open spec fn listed_is(b: BoardModelV, classes: Classes, net: i64, t: Trait) -> bool {
    match map_find(b.nets, net) {
        Some(name) => name_is(classes, name, t),
        None => false,
    }
}

/// Whether the net of a listed number is what the trait says.
pub fn check_listed(
    board: &BoardModel,
    classes: &Vec<(String, NetInfo)>,
    net: i64,
    t: Trait,
) -> (r: bool)
    ensures
        r == listed_is(board.deep_view(), classes.deep_view(), net, t),
{
    match entry(&board.nets, &net) {
        Some(name) => check_name(classes, name, t),
        None => false,
    }
}

/// The vias on fast nets.
pub open spec fn fast_vias(b: BoardModelV, classes: Classes) -> Seq<int> {
    places(b.vias, |v: ViaV| listed_is(b, classes, v.net, Trait::HighSpeed))
}

/// The through vias on fast nets.
pub open spec fn fast_barrels(b: BoardModelV, classes: Classes) -> Seq<int> {
    places(
        b.vias,
        |v: ViaV| v.kind == "via"@ && listed_is(b, classes, v.net, Trait::HighSpeed),
    )
}

struct OnFast<'a> {
    board: &'a BoardModel,
    classes: &'a Vec<(String, NetInfo)>,
    barrel: bool,
}

impl<'a> Test<Via> for OnFast<'a> {
    closed spec fn passes(&self, x: ViaV) -> bool {
        (self.barrel ==> x.kind == "via"@) && listed_is(
            self.board.deep_view(),
            self.classes.deep_view(),
            x.net,
            Trait::HighSpeed,
        )
    }

    fn check(&self, x: &Via) -> (r: bool) {
        let through: bool = same(x.kind.as_str(), "via");
        (!self.barrel || through) && check_listed(
            self.board,
            self.classes,
            x.net,
            Trait::HighSpeed,
        )
    }
}

/// The vias on fast nets.
pub fn find_fast_vias(board: &BoardModel, classes: &Vec<(String, NetInfo)>) -> (r: Vec<usize>)
    ensures
        as_ints(r@) == fast_vias(board.deep_view(), classes.deep_view()),
        forall|i: int| 0 <= i < r@.len() ==> (#[trigger] r@[i]) < board.vias@.len(),
{
    let test = OnFast { board, classes, barrel: false };
    let r = find_places(&board.vias, &test);
    assert(asks::<Via, OnFast>(test) =~= |v: ViaV|
        listed_is(board.deep_view(), classes.deep_view(), v.net, Trait::HighSpeed));
    r
}

/// The through vias on fast nets.
pub fn find_fast_barrels(board: &BoardModel, classes: &Vec<(String, NetInfo)>) -> (r: Vec<usize>)
    ensures
        as_ints(r@) == fast_barrels(board.deep_view(), classes.deep_view()),
        forall|i: int| 0 <= i < r@.len() ==> (#[trigger] r@[i]) < board.vias@.len(),
{
    let test = OnFast { board, classes, barrel: true };
    let r = find_places(&board.vias, &test);
    assert(asks::<Via, OnFast>(test) =~= |v: ViaV|
        v.kind == "via"@ && listed_is(
            board.deep_view(),
            classes.deep_view(),
            v.net,
            Trait::HighSpeed,
        ));
    r
}

/// The group that a net declares.
pub open spec fn group_of(classes: Classes, name: Seq<char>) -> Option<Seq<char>> {
    match map_find(classes, name) {
        Some(i) => i.matched_group,
        None => None,
    }
}

/// The groups of the first `n` nets, by name, each with the places of its nets.
pub open spec fn groups_of(b: BoardModelV, classes: Classes, n: int) -> Seq<
    (Seq<char>, Seq<usize>),
>
    decreases n,
{
    if n <= 0 {
        Seq::empty()
    } else {
        let front = groups_of(b, classes, n - 1);
        match group_of(classes, b.nets[n - 1].1) {
            Some(g) => map_put::<String, Vec<usize>>(
                front,
                g,
                (match map_find(front, g) {
                    Some(members) => members,
                    None => Seq::empty(),
                }).push((n - 1) as usize),
            ),
            None => front,
        }
    }
}

/// The groups of nets that are to have equal lengths, by name.
pub fn find_groups(board: &BoardModel, classes: &Vec<(String, NetInfo)>) -> (r: Vec<
    (String, Vec<usize>),
>)
    ensures
        r.deep_view() == groups_of(
            board.deep_view(),
            classes.deep_view(),
            board.deep_view().nets.len() as int,
        ),
{
    let ghost bv = board.deep_view();
    let ghost cv = classes.deep_view();
    let n: usize = board.nets.len();
    let mut out: Vec<(String, Vec<usize>)> = Vec::new();
    let mut i: usize = 0;
    assert(out.deep_view() =~= groups_of(bv, cv, 0));
    while i < n
        invariant
            n == board.nets@.len(),
            i <= n,
            bv == board.deep_view(),
            cv == classes.deep_view(),
            out.deep_view() == groups_of(bv, cv, i as int),
        decreases n - i,
    {
        assert(bv.nets[i as int] == (board.nets@[i as int].0, board.nets@[i as int].1@));
        match entry(classes, &board.nets[i].1) {
            Some(info) => match &info.matched_group {
                Some(g) => {
                    let mut members: Vec<usize> = match entry(&out, g) {
                        Some(m) => {
                            let c = m.clone();
                            assert(c.deep_view() =~= m.deep_view());
                            c
                        },
                        None => Vec::new(),
                    };
                    let ghost mv = members.deep_view();
                    assert(mv =~= match map_find(groups_of(bv, cv, i as int), g@) {
                        Some(m) => m,
                        None => Seq::empty(),
                    });
                    members.push(i);
                    assert(members.deep_view() =~= mv.push(i));
                    put_entry(&mut out, g.clone(), members);
                },
                None => {},
            },
            None => {},
        }
        i += 1;
    }
    out
}

/// The routed length of a net, zero if it has none.
pub open spec fn routed_of(stats: Seq<NetStatsV>, net: i64) -> Real {
    match stats_at(stats, net) {
        Some(s) => s.routed_length,
        None => zero(),
    }
}

/// The routed length of a net, zero if it has none.
pub fn routed_length(stats: &Vec<NetStats>, net: i64) -> (r: Real)
    ensures
        r == routed_of(stats.deep_view(), net),
{
    match find_stats(stats, net) {
        Some(s) => s.routed_length,
        None => Real::zero(),
    }
}

/// How many of the nets at the first `n` places are routed.
pub open spec fn routed_members(
    b: BoardModelV,
    stats: Seq<NetStatsV>,
    members: Seq<usize>,
    n: int,
) -> nat
    decreases n,
{
    if n <= 0 {
        0
    } else {
        routed_members(b, stats, members, n - 1) + if below(
            Real { bits: TINY },
            routed_of(stats, b.nets[members[n - 1] as int].0),
        ) {
            1nat
        } else {
            0nat
        }
    }
}

/// The group has at least two nets.
pub open spec fn is_group(g: (Seq<char>, Seq<usize>)) -> bool {
    g.1.len() >= 2
}

/// The group has at least two nets, and at least two of them are routed.
pub open spec fn is_measurable(
    b: BoardModelV,
    stats: Seq<NetStatsV>,
    g: (Seq<char>, Seq<usize>),
) -> bool {
    is_group(g) && routed_members(b, stats, g.1, g.1.len() as int) >= 2
}

/// The names of the groups that can be measured.
pub open spec fn measurable(
    b: BoardModelV,
    stats: Seq<NetStatsV>,
    groups: Seq<(Seq<char>, Seq<usize>)>,
) -> Seq<Seq<char>>
    decreases groups.len(),
{
    if groups.len() == 0 {
        Seq::empty()
    } else if is_measurable(b, stats, groups.last()) {
        measurable(b, stats, groups.drop_last()).push(groups.last().0)
    } else {
        measurable(b, stats, groups.drop_last())
    }
}

/// Some group has at least two nets.
pub open spec fn any_group(groups: Seq<(Seq<char>, Seq<usize>)>) -> bool {
    exists|i: int| 0 <= i < groups.len() && is_group(#[trigger] groups[i])
}

/// The members of groups are places of nets.
pub open spec fn members_within(groups: Seq<(Seq<char>, Seq<usize>)>, n: nat) -> bool {
    forall|g: int, i: int|
        0 <= g < groups.len() && 0 <= i < groups[g].1.len() ==> (#[trigger] groups[g].1[i]) < n
}

proof fn found_is_listed(groups: Seq<(Seq<char>, Seq<usize>)>, key: Seq<char>)
    ensures
        map_find(groups, key) matches Some(m) ==> exists|g: int|
            0 <= g < groups.len() && (#[trigger] groups[g]).1 == m,
    decreases groups.len(),
{
    if groups.len() > 0 {
        let rest = groups.drop_first();
        if groups[0].0 != key {
            found_is_listed(rest, key);
            if let Some(m) = map_find(groups, key) {
                let g = choose|g: int| 0 <= g < rest.len() && (#[trigger] rest[g]).1 == m;
                assert(groups[g + 1].1 == m);
            }
        } else {
            assert(groups[0].1 == map_find(groups, key)->0);
        }
    }
}

proof fn put_keeps_members(
    groups: Seq<(Seq<char>, Seq<usize>)>,
    key: Seq<char>,
    members: Seq<usize>,
    n: nat,
)
    requires
        members_within(groups, n),
        forall|i: int| 0 <= i < members.len() ==> (#[trigger] members[i]) < n,
    ensures
        members_within(map_put::<String, Vec<usize>>(groups, key, members), n),
    decreases groups.len(),
{
    let r = map_put::<String, Vec<usize>>(groups, key, members);
    if groups.len() > 0 {
        let rest = groups.drop_first();
        assert(members_within(rest, n)) by {
            assert forall|g: int, i: int| 0 <= g < rest.len() && 0 <= i < rest[g].1.len() implies (
            #[trigger] rest[g].1[i]) < n by {
                assert(groups[g + 1].1[i] < n);
            }
        }
        put_keeps_members(rest, key, members, n);
        let q = map_put::<String, Vec<usize>>(rest, key, members);
        assert forall|g: int, i: int| 0 <= g < r.len() && 0 <= i < r[g].1.len() implies (
        #[trigger] r[g].1[i]) < n by {
            if groups[0].0 == key {
                if g > 0 {
                    assert(groups[g].1[i] < n);
                }
            } else if crate::text::lex_le(key, groups[0].0) {
                if g > 0 {
                    assert(groups[g - 1].1[i] < n);
                }
            } else if g > 0 {
                assert(r[g] == q[g - 1]);
                assert(q[g - 1].1[i] < n);
            } else {
                assert(groups[0].1[i] < n);
            }
        }
    }
}

/// The members of a board's groups are places of its nets.
pub proof fn groups_hold_nets(b: BoardModelV, classes: Classes, n: int)
    requires
        0 <= n <= b.nets.len(),
        b.nets.len() <= usize::MAX,
    ensures
        members_within(groups_of(b, classes, n), b.nets.len()),
    decreases n,
{
    if n > 0 {
        groups_hold_nets(b, classes, n - 1);
        let front = groups_of(b, classes, n - 1);
        if let Some(g) = group_of(classes, b.nets[n - 1].1) {
            let old_members = match map_find(front, g) {
                Some(m) => m,
                None => Seq::empty(),
            };
            let members = old_members.push((n - 1) as usize);
            found_is_listed(front, g);
            assert forall|i: int| 0 <= i < members.len() implies (#[trigger] members[i])
                < b.nets.len() by {
                if i < old_members.len() {
                    let k = choose|k: int|
                        0 <= k < front.len() && (#[trigger] front[k]).1 == old_members;
                    assert(front[k].1[i] < b.nets.len());
                }
            }
            put_keeps_members(front, g, members, b.nets.len());
        }
    }
}

fn count_routed_members(board: &BoardModel, stats: &Vec<NetStats>, members: &Vec<usize>) -> (r:
    usize)
    requires
        forall|i: int| 0 <= i < members@.len() ==> (#[trigger] members@[i]) < board.nets@.len(),
    ensures
        r == routed_members(
            board.deep_view(),
            stats.deep_view(),
            members@,
            members@.len() as int,
        ),
{
    let ghost bv = board.deep_view();
    let ghost sv = stats.deep_view();
    let n: usize = members.len();
    let tiny = Real { bits: TINY };
    let mut count: usize = 0;
    let mut i: usize = 0;
    while i < n
        invariant
            n == members@.len(),
            i <= n,
            bv == board.deep_view(),
            sv == stats.deep_view(),
            tiny == (Real { bits: TINY }),
            forall|j: int| 0 <= j < members@.len() ==> (#[trigger] members@[j]) < board.nets@.len(),
            count <= i,
            count == routed_members(bv, sv, members@, i as int),
        decreases n - i,
    {
        let k: usize = members[i];
        assert(bv.nets[k as int] == (board.nets@[k as int].0, board.nets@[k as int].1@));
        if tiny.less(&routed_length(stats, board.nets[k].0)) {
            count += 1;
        }
        i += 1;
    }
    count
}

/// The names of the groups that can be measured, and whether there is any group.
pub fn find_measurable(
    board: &BoardModel,
    stats: &Vec<NetStats>,
    groups: &Vec<(String, Vec<usize>)>,
) -> (r: (Vec<String>, bool))
    requires
        members_within(groups.deep_view(), board.nets@.len()),
    ensures
        r.0.deep_view() == measurable(
            board.deep_view(),
            stats.deep_view(),
            groups.deep_view(),
        ),
        r.1 == any_group(groups.deep_view()),
{
    let ghost bv = board.deep_view();
    let ghost sv = stats.deep_view();
    let ghost gv = groups.deep_view();
    let n: usize = groups.len();
    let mut out: Vec<String> = Vec::new();
    let mut any: bool = false;
    let mut i: usize = 0;
    assert(out.deep_view() =~= measurable(bv, sv, gv.take(0)));
    while i < n
        invariant
            n == groups@.len(),
            i <= n,
            bv == board.deep_view(),
            sv == stats.deep_view(),
            gv == groups.deep_view(),
            members_within(gv, board.nets@.len()),
            out.deep_view() == measurable(bv, sv, gv.take(i as int)),
            any == exists|j: int| 0 <= j < i && is_group(#[trigger] gv[j]),
        decreases n - i,
    {
        let ghost before = out.deep_view();
        assert(gv.take(i + 1).drop_last() =~= gv.take(i as int));
        assert(gv[i as int] == (groups@[i as int].0@, groups@[i as int].1.deep_view()));
        let members = &groups[i].1;
        assert(members.deep_view() =~= members@);
        if members.len() >= 2 {
            any = true;
            assert(is_group(gv[i as int]));
            assert forall|j: int| 0 <= j < members@.len() implies (#[trigger] members@[j])
                < board.nets@.len() by {
                assert(gv[i as int].1[j] < board.nets@.len());
            }
            if count_routed_members(board, stats, members) >= 2 {
                out.push(groups[i].0.clone());
                assert(out.deep_view() =~= before.push(gv[i as int].0));
            }
        }
        i += 1;
    }
    assert(gv.take(n as int) =~= gv);
    (out, any)
}

} // verus!
