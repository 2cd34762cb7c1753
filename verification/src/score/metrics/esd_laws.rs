//! What the metrics count that go by what a netlist declares, and when they apply.
use vstd::prelude::*;

use crate::number::{no_number, place, Real};
use crate::score::board::{BoardModelV, FootprintV, PadV};
use crate::score::metrics::context::{name_is, role_is, Classes, ScoreContext, Trait};
use crate::score::metrics::count_laws::count;
use crate::score::metrics::esd::{
    covered_points, esd_fits, guarded, judged, protected, short_ways, well_ordered, EsdPass,
    EsdReals,
};
use crate::score::metrics::esd_select::{
    first_on, first_on_is_exact, ground_pads, ground_pads_in, is_protected, line_to, lines_of,
    lines_of_connector, lines_of_pad, lines_to, on_name, pad_at, signals, signals_in, LineV, PadAt,
};
use crate::score::model::{Amount, CategoryResult};
use crate::score::roles::Role;
use crate::select::{places, places_are_exact};
use crate::sorted_map::map_find;

verus! {

/// The footprint has the role.
pub open spec fn plays(ctx: ScoreContext, f: int, role: Role) -> bool {
    let c = ctx.deep_view();
    &&& c.roles is Some
    &&& 0 <= f < c.board.footprints.len()
    &&& map_find(c.roles->0, c.board.footprints[f].reference) == Some(role)
}

/// Some footprint has the role.
pub open spec fn any_plays(ctx: ScoreContext, role: Role) -> bool {
    exists|f: int| #[trigger] plays(ctx, f, role)
}

/// A pad of the footprint is on the net of the given name.
pub open spec fn reaches_net(b: BoardModelV, f: int, name: Seq<char>) -> bool {
    exists|k: int|
        0 <= k < b.footprints[f].pads.len() && (#[trigger] b.footprints[f].pads[k]).net_name
            == Some(name)
}

proof fn first_is_there(pads: Seq<PadV>, name: Seq<char>)
    ensures
        first_on(pads, name) is Some <==> exists|k: int|
            0 <= k < pads.len() && (#[trigger] pads[k]).net_name == Some(name),
{
    first_on_is_exact(pads, name);
    if first_on(pads, name) is Some {
        let k = choose|i: int| 0 <= i < pads.len() && on_name(#[trigger] pads[i], name);
        assert(pads[k].net_name == Some(name));
    }
    if exists|k: int| 0 <= k < pads.len() && (#[trigger] pads[k]).net_name == Some(name) {
        let k = choose|k: int| 0 <= k < pads.len() && (#[trigger] pads[k]).net_name == Some(name);
        assert(on_name(pads[k], name));
    }
}

proof fn protected_counted(b: BoardModelV, tvs: Seq<int>, names: Seq<Seq<char>>)
    ensures
        protected(b, tvs, names) == count(
            names,
            |n: Seq<char>|
                exists|i: int| 0 <= i < tvs.len() && reaches_net(b, #[trigger] tvs[i], n),
        ),
    decreases names.len(),
{
    if names.len() > 0 {
        protected_counted(b, tvs, names.drop_last());
        let n = names.last();
        if is_protected(b, tvs, n) {
            let i = choose|i: int|
                0 <= i < tvs.len() && first_on(b.footprints[#[trigger] tvs[i]].pads, n) is Some;
            first_is_there(b.footprints[tvs[i]].pads, n);
            let k = choose|k: int|
                0 <= k < b.footprints[tvs[i]].pads.len() && (
                #[trigger] b.footprints[tvs[i]].pads[k]).net_name == Some(n);
            assert(b.footprints[tvs[i]].pads[k].net_name == Some(n));
            assert(reaches_net(b, tvs[i], n));
        }
        if exists|i: int| 0 <= i < tvs.len() && reaches_net(b, #[trigger] tvs[i], n) {
            let i = choose|i: int| 0 <= i < tvs.len() && reaches_net(b, #[trigger] tvs[i], n);
            first_is_there(b.footprints[tvs[i]].pads, n);
            assert(first_on(b.footprints[tvs[i]].pads, n) is Some);
        }
    }
}

proof fn ordered_counted(
    lines: Seq<LineV>,
    distances: Seq<Real>,
    others: Seq<Seq<Real>>,
    n: int,
)
    requires
        0 <= n <= lines.len(),
        lines.len() == distances.len(),
        lines.len() == others.len(),
    ensures
        judged(lines, n) == count(
            Seq::new(n as nat, |i: int| i),
            |i: int| lines[i].others.len() > 0,
        ),
        well_ordered(lines, distances, others, n) == count(
            Seq::new(n as nat, |i: int| i),
            |i: int|
                lines[i].others.len() > 0 && !no_number(distances[i]) && forall|k: int|
                    0 <= k < others[i].len() ==> !no_number(#[trigger] others[i][k]) && place(
                        distances[i],
                    ) <= place(others[i][k]),
        ),
    decreases n,
{
    if n > 0 {
        ordered_counted(lines, distances, others, n - 1);
        assert(Seq::new(n as nat, |i: int| i).drop_last() =~= Seq::new((n - 1) as nat, |i: int| i));
    }
}

proof fn ways_counted(
    b: BoardModelV,
    pads: Seq<PadAt>,
    in_fill: Seq<bool>,
    distances: Seq<Real>,
    n: int,
)
    requires
        0 <= n <= pads.len(),
    ensures
        short_ways(b, pads, in_fill, distances, n) == count(
            Seq::new(n as nat, |i: int| i),
            |i: int|
                pad_at(b, pads[i]).net is Some && (in_fill[i] || (!no_number(distances[i]) && place(
                    distances[i],
                ) <= 0x3ff0_0000_0000_0000)),
        ),
    decreases n,
{
    if n > 0 {
        ways_counted(b, pads, in_fill, distances, n - 1);
        assert(Seq::new(n as nat, |i: int| i).drop_last() =~= Seq::new((n - 1) as nat, |i: int| i));
    }
}

proof fn rings_counted(rings: Seq<Seq<bool>>)
    ensures
        guarded(rings) == count(rings, |ring: Seq<bool>| count(ring, |p: bool| p) >= 4),
    decreases rings.len(),
{
    if rings.len() > 0 {
        rings_counted(rings.drop_last());
        points_counted(rings.last());
    }
}

proof fn points_counted(ring: Seq<bool>)
    ensures
        covered_points(ring) == count(ring, |p: bool| p),
    decreases ring.len(),
{
    if ring.len() > 0 {
        points_counted(ring.drop_last());
    }
}

proof fn signals_found(classes: Classes, pads: Seq<PadV>, n: int, name: Seq<char>)
    requires
        0 <= n <= pads.len(),
    ensures
        signals_in(classes, pads, n).contains(name) <==> map_find(classes, name) is Some && !name_is(
            classes,
            name,
            Trait::Reference,
        ) && exists|k: int| 0 <= k < n && (#[trigger] pads[k]).net_name == Some(name),
    decreases n,
{
    if n > 0 {
        signals_found(classes, pads, n - 1, name);
        let f = signals_in(classes, pads, n - 1);
        let r = signals_in(classes, pads, n);
        if f.contains(name) {
            let k = choose|k: int| 0 <= k < f.len() && f[k] == name;
            assert(r[k] == name);
        }
        if r.contains(name) {
            let k = choose|k: int| 0 <= k < r.len() && r[k] == name;
            if k < f.len() {
                assert(f[k] == name);
            } else {
                assert(pads[n - 1].net_name == Some(name));
            }
        }
        if pads[n - 1].net_name == Some(name) && map_find(classes, name) is Some && !name_is(
            classes,
            name,
            Trait::Reference,
        ) {
            assert(r[r.len() - 1] == name);
        }
    }
}

proof fn all_signals_found(b: BoardModelV, classes: Classes, at: Seq<int>, name: Seq<char>)
    ensures
        signals(b, classes, at).contains(name) <==> map_find(classes, name) is Some && !name_is(
            classes,
            name,
            Trait::Reference,
        ) && exists|i: int| 0 <= i < at.len() && reaches_net(b, #[trigger] at[i], name),
    decreases at.len(),
{
    if at.len() > 0 {
        let front = at.drop_last();
        all_signals_found(b, classes, front, name);
        let pads = b.footprints[at.last()].pads;
        signals_found(classes, pads, pads.len() as int, name);
        let f = signals(b, classes, front);
        let g = signals_in(classes, pads, pads.len() as int);
        let r = signals(b, classes, at);
        let end = at.len() - 1;
        assert(at[end] == at.last());
        if f.contains(name) {
            let k = choose|k: int| 0 <= k < f.len() && f[k] == name;
            assert(r[k] == name);
            let i = choose|i: int| 0 <= i < front.len() && reaches_net(b, #[trigger] front[i], name);
            assert(reaches_net(b, at[i], name));
        }
        if g.contains(name) {
            let k = choose|k: int| 0 <= k < g.len() && g[k] == name;
            assert(r[f.len() + k] == name);
            let j = choose|j: int| 0 <= j < pads.len() && (#[trigger] pads[j]).net_name == Some(name);
            assert(b.footprints[at.last()].pads[j].net_name == Some(name));
            assert(reaches_net(b, at[end], name));
        }
        if r.contains(name) {
            let k = choose|k: int| 0 <= k < r.len() && r[k] == name;
            if k < f.len() {
                assert(f[k] == name);
            } else {
                assert(g[k - f.len()] == name);
            }
        }
        if exists|i: int| 0 <= i < at.len() && reaches_net(b, #[trigger] at[i], name) {
            let i = choose|i: int| 0 <= i < at.len() && reaches_net(b, #[trigger] at[i], name);
            if i < end {
                assert(reaches_net(b, front[i], name));
            } else {
                let j = choose|j: int|
                    0 <= j < b.footprints[at[i]].pads.len() && (
                    #[trigger] b.footprints[at[i]].pads[j]).net_name == Some(name);
                assert(pads[j].net_name == Some(name));
            }
        }
    }
}

/// The names are those of the known nets, but for power and ground, that a connector has a pad on.
pub open spec fn are_exposed(ctx: ScoreContext, names: Seq<Seq<char>>) -> bool {
    let c = ctx.deep_view();
    forall|n: Seq<char>| #[trigger]
        names.contains(n) <==> map_find(c.net_classes->0, n) is Some && !name_is(
            c.net_classes->0,
            n,
            Trait::Reference,
        ) && exists|f: int| #[trigger] plays(ctx, f, Role::Connector) && reaches_net(c.board, f, n)
}

/// The metrics on discharges apply where suppressors and connectors are declared. They count: of the
/// lines that reach a third part, those on which the suppressor is no farther than that; of the
/// ground pads of suppressors, those in a ground fill or within a millimetre of a ground via; of the
/// nets that connectors expose, those that a suppressor is on; of the connectors, those with ground
/// on at least four points around them.
pub proof fn esd_counts(pass: EsdPass, ctx: ScoreContext, reals: EsdReals, r: CategoryResult) -> (names:
    Seq<Seq<char>>)
    requires
        EsdPass::run.ensures((&pass, &ctx, &reals), r),
        ctx.net_classes is Some,
        any_plays(ctx, Role::Tvs),
        any_plays(ctx, Role::Connector),
    ensures
        are_exposed(ctx, names),
        ({
            let m = r.metrics.deep_view();
            let b = ctx.deep_view().board;
            &&& m[3].applicable <==> names.len() > 0
            &&& m[3].applicable ==> m[3].raw == Some(
                Amount::Ratio(
                    count(
                        names,
                        |n: Seq<char>|
                            exists|f: int| #[trigger]
                                plays(ctx, f, Role::Tvs) && reaches_net(b, f, n),
                    ) as u128,
                    names.len() as u128,
                ),
            )
            &&& m[4].applicable ==> m[4].raw == Some(
                Amount::Ratio(
                    count(
                        reals.rings.deep_view(),
                        |ring: Seq<bool>| count(ring, |p: bool| p) >= 4,
                    ) as u128,
                    count(
                        b.footprints,
                        |x: FootprintV| map_find(ctx.deep_view().roles->0, x.reference) == Some(
                            Role::Connector,
                        ),
                    ) as u128,
                ),
            )
        }),
{
    let c = ctx.deep_view();
    let b = c.board;
    let classes = c.net_classes->0;
    let roles = c.roles->0;
    let t = |x: FootprintV| role_is(roles, x.reference, Role::Tvs);
    let k = |x: FootprintV| role_is(roles, x.reference, Role::Connector);
    let tvs = places(b.footprints, t);
    let con = places(b.footprints, k);
    places_are_exact(b.footprints, t);
    places_are_exact(b.footprints, k);
    let ft = choose|f: int| #[trigger] plays(ctx, f, Role::Tvs);
    let fc = choose|f: int| #[trigger] plays(ctx, f, Role::Connector);
    assert(c.roles is Some);
    assert(tvs.contains(ft));
    assert(con.contains(fc));
    let names = signals(b, classes, con);
    assert forall|n: Seq<char>| #[trigger] names.contains(n) <==> map_find(classes, n) is Some
        && !name_is(classes, n, Trait::Reference) && exists|f: int| #[trigger]
        plays(ctx, f, Role::Connector) && reaches_net(b, f, n) by {
        all_signals_found(b, classes, con, n);
        if exists|i: int| 0 <= i < con.len() && reaches_net(b, #[trigger] con[i], n) {
            let i = choose|i: int| 0 <= i < con.len() && reaches_net(b, #[trigger] con[i], n);
            assert(con.contains(con[i]));
            assert(plays(ctx, con[i], Role::Connector));
        }
        if exists|f: int| #[trigger] plays(ctx, f, Role::Connector) && reaches_net(b, f, n) {
            let f = choose|f: int| #[trigger]
                plays(ctx, f, Role::Connector) && reaches_net(b, f, n);
            assert(k(b.footprints[f]));
            assert(con.contains(f));
            let i = choose|i: int| 0 <= i < con.len() && con[i] == f;
            assert(reaches_net(b, con[i], n));
        }
    }
    protected_counted(b, tvs, names);
    let p = |n: Seq<char>| exists|i: int| 0 <= i < tvs.len() && reaches_net(b, #[trigger] tvs[i], n);
    let q = |n: Seq<char>|
        exists|f: int| #[trigger] plays(ctx, f, Role::Tvs) && reaches_net(b, f, n);
    assert forall|n: Seq<char>| #[trigger] p(n) == q(n) by {
        if p(n) {
            let i = choose|i: int| 0 <= i < tvs.len() && reaches_net(b, #[trigger] tvs[i], n);
            assert(tvs.contains(tvs[i]));
            assert(plays(ctx, tvs[i], Role::Tvs));
        }
        if q(n) {
            let f = choose|f: int| #[trigger] plays(ctx, f, Role::Tvs) && reaches_net(b, f, n);
            assert(t(b.footprints[f]));
            assert(tvs.contains(f));
            let i = choose|i: int| 0 <= i < tvs.len() && tvs[i] == f;
            assert(reaches_net(b, tvs[i], n));
        }
    }
    assert(p =~= q);
    rings_counted(reals.rings.deep_view());
    let k2 = |x: FootprintV| map_find(ctx.deep_view().roles->0, x.reference) == Some(Role::Connector);
    assert(k =~= k2);
    names
}

/// The line leads from a pad of a connector to a pad of a suppressor on the same net, which is known
/// and not the ground.
pub open spec fn is_line(ctx: ScoreContext, l: LineV) -> bool {
    let c = ctx.deep_view();
    &&& plays(ctx, l.connector.footprint as int, Role::Connector)
    &&& plays(ctx, l.suppressor.footprint as int, Role::Tvs)
    &&& l.connector.pad < c.board.footprints[l.connector.footprint as int].pads.len()
    &&& l.suppressor.pad < c.board.footprints[l.suppressor.footprint as int].pads.len()
    &&& pad_at(c.board, l.connector).net_name == Some(l.net_name)
    &&& pad_at(c.board, l.suppressor).net_name == Some(l.net_name)
    &&& map_find(c.net_classes->0, l.net_name) is Some
    &&& !name_is(c.net_classes->0, l.net_name, Trait::Ground)
}

/// Pad `k` of connector `f` is on a known net, not the ground, that suppressor `t` is on too.
pub open spec fn is_open_line(ctx: ScoreContext, f: usize, k: usize, t: int, n: Seq<char>) -> bool {
    let c = ctx.deep_view();
    &&& plays(ctx, f as int, Role::Connector)
    &&& plays(ctx, t, Role::Tvs)
    &&& k < c.board.footprints[f as int].pads.len()
    &&& c.board.footprints[f as int].pads[k as int].net_name == Some(n)
    &&& reaches_net(c.board, t, n)
    &&& map_find(c.net_classes->0, n) is Some
    &&& !name_is(c.net_classes->0, n, Trait::Ground)
}

/// The lines lead from the pad of the connector to the suppressor.
pub open spec fn has_line(lines: Seq<LineV>, f: usize, k: usize, t: int) -> bool {
    exists|i: int|
        0 <= i < lines.len() && (#[trigger] lines[i]).connector == (PadAt {
            footprint: f,
            pad: k,
        }) && lines[i].suppressor.footprint == t
}

/// The pad is one of a suppressor on a ground net.
pub open spec fn grounds(ctx: ScoreContext, p: PadAt) -> bool {
    let c = ctx.deep_view();
    &&& plays(ctx, p.footprint as int, Role::Tvs)
    &&& p.pad < c.board.footprints[p.footprint as int].pads.len()
    &&& pad_at(c.board, p).net_name is Some
    &&& name_is(c.net_classes->0, pad_at(c.board, p).net_name->0, Trait::Ground)
}

proof fn lines_to_hold(ctx: ScoreContext, name: Seq<char>, c: PadAt, tvs: Seq<int>)
    requires
        ctx.deep_view().board.footprints.len() <= usize::MAX,
        forall|f: int|
            0 <= f < ctx.deep_view().board.footprints.len() ==> (
            #[trigger] ctx.deep_view().board.footprints[f]).pads.len() <= usize::MAX,
        plays(ctx, c.footprint as int, Role::Connector),
        c.pad < ctx.deep_view().board.footprints[c.footprint as int].pads.len(),
        pad_at(ctx.deep_view().board, c).net_name == Some(name),
        map_find(ctx.deep_view().net_classes->0, name) is Some,
        !name_is(ctx.deep_view().net_classes->0, name, Trait::Ground),
        forall|i: int| 0 <= i < tvs.len() ==> plays(ctx, #[trigger] tvs[i], Role::Tvs),
    ensures
        forall|i: int|
            0 <= i < lines_to(ctx.deep_view().board, name, c, tvs).len() ==> is_line(
                ctx,
                #[trigger] lines_to(ctx.deep_view().board, name, c, tvs)[i],
            ),
        forall|t: int|
            tvs.contains(t) && #[trigger] reaches_net(ctx.deep_view().board, t, name) ==> exists|
                i: int,
            |
                0 <= i < lines_to(ctx.deep_view().board, name, c, tvs).len() && (
                #[trigger] lines_to(ctx.deep_view().board, name, c, tvs)[i]).connector == c
                    && lines_to(
                    ctx.deep_view().board,
                    name,
                    c,
                    tvs,
                )[i].suppressor.footprint == t,
    decreases tvs.len(),
{
    let b = ctx.deep_view().board;
    if tvs.len() > 0 {
        let front = tvs.drop_last();
        let last = tvs.last();
        let end = tvs.len() - 1;
        assert(tvs[end] == last);
        assert forall|i: int| 0 <= i < front.len() implies plays(
            ctx,
            #[trigger] front[i],
            Role::Tvs,
        ) by {
            assert(front[i] == tvs[i]);
        }
        lines_to_hold(ctx, name, c, front);
        assert(plays(ctx, tvs[end], Role::Tvs));
        let f = lines_to(b, name, c, front);
        let r = lines_to(b, name, c, tvs);
        let pads = b.footprints[last].pads;
        assert(b.footprints[last].pads.len() <= usize::MAX);
        first_on_is_exact(pads, name);
        first_is_there(pads, name);
        assert forall|i: int| 0 <= i < r.len() implies is_line(ctx, #[trigger] r[i]) by {
            if i < f.len() {
                assert(r[i] == f[i]);
            } else {
                assert(r[i] == line_to(b, name, c, last)->0);
            }
        }
        assert forall|t: int|
            tvs.contains(t) && #[trigger] reaches_net(b, t, name) implies exists|i: int|
            0 <= i < r.len() && (#[trigger] r[i]).connector == c && r[i].suppressor.footprint
                == t by {
            if t == last {
                let k = choose|k: int|
                    0 <= k < b.footprints[t].pads.len() && (
                    #[trigger] b.footprints[t].pads[k]).net_name == Some(name);
                assert(pads[k].net_name == Some(name));
                assert(line_to(b, name, c, last) is Some);
                assert(r[r.len() - 1] == line_to(b, name, c, last)->0);
                assert(r[r.len() - 1].connector == c);
            } else {
                let x = choose|x: int| 0 <= x < tvs.len() && tvs[x] == t;
                assert(front[x] == t);
                let i = choose|i: int|
                    0 <= i < f.len() && (#[trigger] f[i]).connector == c
                        && f[i].suppressor.footprint == t;
                assert(r[i] == f[i]);
            }
        }
    }
}

proof fn connector_lines(ctx: ScoreContext, f: int, tvs: Seq<int>, n: int)
    requires
        ctx.deep_view().board.footprints.len() <= usize::MAX,
        forall|f: int|
            0 <= f < ctx.deep_view().board.footprints.len() ==> (
            #[trigger] ctx.deep_view().board.footprints[f]).pads.len() <= usize::MAX,
        ctx.net_classes is Some,
        plays(ctx, f, Role::Connector),
        0 <= n <= ctx.deep_view().board.footprints[f].pads.len(),
        forall|i: int| 0 <= i < tvs.len() ==> plays(ctx, #[trigger] tvs[i], Role::Tvs),
    ensures
        ({
            let b = ctx.deep_view().board;
            let r = lines_of_connector(b, ctx.deep_view().net_classes->0, f, tvs, n);
            &&& forall|i: int| 0 <= i < r.len() ==> is_line(ctx, #[trigger] r[i])
            &&& forall|k: usize, t: int, name: Seq<char>|
                k < n && tvs.contains(t) && #[trigger] is_open_line(ctx, f as usize, k, t, name)
                    ==> exists|i: int|
                    0 <= i < r.len() && (#[trigger] r[i]).connector == (PadAt {
                        footprint: f as usize,
                        pad: k,
                    }) && r[i].suppressor.footprint == t
        }),
    decreases n,
{
    let b = ctx.deep_view().board;
    let classes = ctx.deep_view().net_classes->0;
    if n > 0 {
        connector_lines(ctx, f, tvs, n - 1);
        let c = PadAt { footprint: f as usize, pad: (n - 1) as usize };
        assert(b.footprints[f].pads.len() <= usize::MAX);
        let front = lines_of_connector(b, classes, f, tvs, n - 1);
        let more = lines_of_pad(b, classes, c, tvs);
        let r = lines_of_connector(b, classes, f, tvs, n);
        assert(r == front + more);
        if let Some(name) = pad_at(b, c).net_name {
            if map_find(classes, name) is Some && !name_is(classes, name, Trait::Ground) {
                lines_to_hold(ctx, name, c, tvs);
            }
        }
        assert forall|i: int| 0 <= i < r.len() implies is_line(ctx, #[trigger] r[i]) by {
            if i < front.len() {
                assert(r[i] == front[i]);
            } else {
                assert(r[i] == more[i - front.len()]);
            }
        }
        assert forall|k: usize, t: int, name: Seq<char>|
            k < n && tvs.contains(t) && #[trigger] is_open_line(ctx, f as usize, k, t, name) implies exists|
            i: int,
        |
            0 <= i < r.len() && (#[trigger] r[i]).connector == (PadAt {
                footprint: f as usize,
                pad: k,
            }) && r[i].suppressor.footprint == t by {
            if k < n - 1 {
                let i = choose|i: int|
                    0 <= i < front.len() && (#[trigger] front[i]).connector == (PadAt {
                        footprint: f as usize,
                        pad: k,
                    }) && front[i].suppressor.footprint == t;
                assert(r[i] == front[i]);
            } else {
                assert(pad_at(b, c).net_name == Some(name));
                assert(reaches_net(b, t, name));
                let i = choose|i: int|
                    0 <= i < more.len() && (#[trigger] more[i]).connector == c
                        && more[i].suppressor.footprint == t;
                assert(r[front.len() + i] == more[i]);
            }
        }
    }
}

proof fn sizes_fit(ctx: ScoreContext)
    ensures
        ctx.deep_view().board.footprints.len() <= usize::MAX,
        forall|f: int|
            0 <= f < ctx.deep_view().board.footprints.len() ==> (
            #[trigger] ctx.deep_view().board.footprints[f]).pads.len() <= usize::MAX,
{
    let b = ctx.deep_view().board;
    assert(b.footprints.len() == ctx.board.footprints.len());
    assert forall|f: int| 0 <= f < b.footprints.len() implies (#[trigger] b.footprints[f]).pads.len()
        <= usize::MAX by {
        assert(b.footprints[f] == ctx.board.footprints@[f].deep_view());
        assert(b.footprints[f].pads.len() == ctx.board.footprints@[f].pads.len());
    }
}

proof fn lines_hold(ctx: ScoreContext, con: Seq<int>, tvs: Seq<int>)
    requires
        ctx.net_classes is Some,
        forall|i: int| 0 <= i < con.len() ==> plays(ctx, #[trigger] con[i], Role::Connector),
        forall|i: int| 0 <= i < tvs.len() ==> plays(ctx, #[trigger] tvs[i], Role::Tvs),
    ensures
        ({
            let r = lines_of(ctx.deep_view().board, ctx.deep_view().net_classes->0, con, tvs);
            forall|i: int| 0 <= i < r.len() ==> is_line(ctx, #[trigger] r[i])
        }),
    decreases con.len(),
{
    let b = ctx.deep_view().board;
    let classes = ctx.deep_view().net_classes->0;
    if con.len() > 0 {
        let front = con.drop_last();
        assert forall|i: int| 0 <= i < front.len() implies plays(
            ctx,
            #[trigger] front[i],
            Role::Connector,
        ) by {
            assert(front[i] == con[i]);
        }
        lines_hold(ctx, front, tvs);
        sizes_fit(ctx);
        let f = con.last();
        assert(plays(ctx, con[con.len() - 1], Role::Connector));
        connector_lines(ctx, f, tvs, b.footprints[f].pads.len() as int);
        let a = lines_of(b, classes, front, tvs);
        let m = lines_of_connector(b, classes, f, tvs, b.footprints[f].pads.len() as int);
        let r = lines_of(b, classes, con, tvs);
        assert forall|i: int| 0 <= i < r.len() implies is_line(ctx, #[trigger] r[i]) by {
            if i < a.len() {
                assert(r[i] == a[i]);
            } else {
                assert(r[i] == m[i - a.len()]);
            }
        }
    }
}

proof fn lines_are_all_there(
    ctx: ScoreContext,
    con: Seq<int>,
    tvs: Seq<int>,
    f: usize,
    k: usize,
    t: int,
    name: Seq<char>,
)
    requires
        ctx.net_classes is Some,
        forall|i: int| 0 <= i < con.len() ==> plays(ctx, #[trigger] con[i], Role::Connector),
        forall|i: int| 0 <= i < tvs.len() ==> plays(ctx, #[trigger] tvs[i], Role::Tvs),
        con.contains(f as int),
        tvs.contains(t),
        is_open_line(ctx, f, k, t, name),
    ensures
        ({
            let r = lines_of(ctx.deep_view().board, ctx.deep_view().net_classes->0, con, tvs);
            exists|i: int|
                0 <= i < r.len() && (#[trigger] r[i]).connector == (PadAt {
                    footprint: f,
                    pad: k,
                }) && r[i].suppressor.footprint == t
        }),
    decreases con.len(),
{
    let b = ctx.deep_view().board;
    let classes = ctx.deep_view().net_classes->0;
    let front = con.drop_last();
    let last = con.last();
    let a = lines_of(b, classes, front, tvs);
    let m = lines_of_connector(b, classes, last, tvs, b.footprints[last].pads.len() as int);
    let r = lines_of(b, classes, con, tvs);
    assert(r == a + m);
    if last == f {
        sizes_fit(ctx);
        connector_lines(ctx, last, tvs, b.footprints[last].pads.len() as int);
        let i = choose|i: int|
            0 <= i < m.len() && (#[trigger] m[i]).connector == (PadAt { footprint: f, pad: k })
                && m[i].suppressor.footprint == t;
        assert(r[a.len() + i] == m[i]);
    } else {
        assert forall|i: int| 0 <= i < front.len() implies plays(
            ctx,
            #[trigger] front[i],
            Role::Connector,
        ) by {
            assert(front[i] == con[i]);
        }
        let x = choose|x: int| 0 <= x < con.len() && con[x] == f as int;
        assert(front[x] == f as int);
        lines_are_all_there(ctx, front, tvs, f, k, t, name);
        let i = choose|i: int|
            0 <= i < a.len() && (#[trigger] a[i]).connector == (PadAt { footprint: f, pad: k })
                && a[i].suppressor.footprint == t;
        assert(r[i] == a[i]);
    }
}

proof fn ground_pads_in_found(ctx: ScoreContext, f: int, n: int, p: PadAt)
    requires
        ctx.deep_view().board.footprints.len() <= usize::MAX,
        0 <= f < ctx.deep_view().board.footprints.len(),
        0 <= n <= ctx.deep_view().board.footprints[f].pads.len() <= usize::MAX,
    ensures
        ground_pads_in(
            ctx.deep_view().board,
            ctx.deep_view().net_classes->0,
            f,
            n,
        ).contains(p) <==> p.footprint == f && p.pad < n && ({
            let d = pad_at(ctx.deep_view().board, p);
            d.net_name is Some && name_is(
                ctx.deep_view().net_classes->0,
                d.net_name->0,
                Trait::Ground,
            )
        }),
    decreases n,
{
    let b = ctx.deep_view().board;
    let classes = ctx.deep_view().net_classes->0;
    if n > 0 {
        ground_pads_in_found(ctx, f, n - 1, p);
        let a = ground_pads_in(b, classes, f, n - 1);
        let r = ground_pads_in(b, classes, f, n);
        if a.contains(p) {
            let k = choose|k: int| 0 <= k < a.len() && a[k] == p;
            assert(r[k] == p);
        }
        if r.contains(p) {
            let k = choose|k: int| 0 <= k < r.len() && r[k] == p;
            if k < a.len() {
                assert(a[k] == p);
            }
        }
        if p.footprint == f && p.pad == n - 1 {
            if r.len() > a.len() {
                assert(r[r.len() - 1] == p);
            }
        }
    }
}

proof fn ground_pads_found(ctx: ScoreContext, tvs: Seq<int>, p: PadAt)
    requires
        forall|i: int| 0 <= i < tvs.len() ==> plays(ctx, #[trigger] tvs[i], Role::Tvs),
    ensures
        ground_pads(
            ctx.deep_view().board,
            ctx.deep_view().net_classes->0,
            tvs,
        ).contains(p) <==> tvs.contains(p.footprint as int) && grounds(ctx, p),
    decreases tvs.len(),
{
    let b = ctx.deep_view().board;
    let classes = ctx.deep_view().net_classes->0;
    if tvs.len() > 0 {
        let front = tvs.drop_last();
        let last = tvs.last();
        let end = tvs.len() - 1;
        assert(plays(ctx, tvs[end], Role::Tvs));
        assert forall|i: int| 0 <= i < front.len() implies plays(
            ctx,
            #[trigger] front[i],
            Role::Tvs,
        ) by {
            assert(front[i] == tvs[i]);
        }
        ground_pads_found(ctx, front, p);
        sizes_fit(ctx);
        assert(b.footprints[last].pads.len() <= usize::MAX);
        let n = b.footprints[last].pads.len() as int;
        ground_pads_in_found(ctx, last, n, p);
        let a = ground_pads(b, classes, front);
        let m = ground_pads_in(b, classes, last, n);
        let r = ground_pads(b, classes, tvs);
        assert(r == a + m);
        if a.contains(p) {
            let k = choose|k: int| 0 <= k < a.len() && a[k] == p;
            assert(r[k] == p);
            let x = choose|x: int| 0 <= x < front.len() && front[x] == p.footprint as int;
            assert(tvs[x] == p.footprint as int);
        }
        if m.contains(p) {
            let k = choose|k: int| 0 <= k < m.len() && m[k] == p;
            assert(r[a.len() + k] == p);
            assert(tvs[end] == p.footprint as int);
        }
        if r.contains(p) {
            let k = choose|k: int| 0 <= k < r.len() && r[k] == p;
            if k < a.len() {
                assert(a[k] == p);
            } else {
                assert(m[k - a.len()] == p);
            }
        }
        if tvs.contains(p.footprint as int) && p.footprint as int != last {
            let x = choose|x: int| 0 <= x < tvs.len() && tvs[x] == p.footprint as int;
            assert(front[x] == p.footprint as int);
        }
    }
}

/// On the lines between connectors and suppressors, and on the ways of suppressors to the ground: of
/// the lines that reach a third part, those count on which no third part is nearer than the
/// suppressor; of the ground pads, those in a ground fill or at most a millimetre from a ground via.
pub proof fn esd_ways(
    pass: EsdPass,
    ctx: ScoreContext,
    reals: EsdReals,
    r: CategoryResult,
) -> (found: (Seq<LineV>, Seq<PadAt>))
    requires
        EsdPass::run.ensures((&pass, &ctx, &reals), r),
        esd_fits(ctx.deep_view(), reals),
        ctx.net_classes is Some,
        any_plays(ctx, Role::Tvs),
        any_plays(ctx, Role::Connector),
    ensures
        forall|i: int| 0 <= i < found.0.len() ==> is_line(ctx, #[trigger] found.0[i]),
        forall|f: usize, k: usize, t: int, n: Seq<char>|
            #[trigger] is_open_line(ctx, f, k, t, n) ==> has_line(found.0, f, k, t),
        forall|p: PadAt| #[trigger] found.1.contains(p) <==> grounds(ctx, p),
        ({
            let m = r.metrics.deep_view();
            let b = ctx.deep_view().board;
            let (lines, pads) = found;
            let n = lines.len();
            let all = Seq::new(n, |i: int| i);
            let others = reals.other_distances.deep_view();
            &&& m[0].applicable <==> n > 0
            &&& m[1].applicable ==> m[1].raw == Some(
                Amount::Ratio(
                    count(
                        all,
                        |i: int|
                            lines[i].others.len() > 0 && !no_number(reals.tvs_distances@[i])
                                && forall|k: int|
                                0 <= k < others[i].len() ==> !no_number(#[trigger] others[i][k])
                                    && place(reals.tvs_distances@[i]) <= place(others[i][k]),
                    ) as u128,
                    count(all, |i: int| lines[i].others.len() > 0) as u128,
                ),
            )
            &&& m[2].applicable <==> pads.len() > 0
            &&& m[2].applicable ==> m[2].raw == Some(
                Amount::Ratio(
                    count(
                        Seq::new(pads.len(), |i: int| i),
                        |i: int|
                            pad_at(b, pads[i]).net is Some && (reals.in_fill@[i] || (!no_number(
                                reals.via_distances@[i],
                            ) && place(reals.via_distances@[i]) <= 0x3ff0_0000_0000_0000)),
                    ) as u128,
                    pads.len() as u128,
                ),
            )
        }),
{
    let c = ctx.deep_view();
    let b = c.board;
    let classes = c.net_classes->0;
    let roles = c.roles->0;
    let t = |x: FootprintV| role_is(roles, x.reference, Role::Tvs);
    let k = |x: FootprintV| role_is(roles, x.reference, Role::Connector);
    let tvs = places(b.footprints, t);
    let con = places(b.footprints, k);
    places_are_exact(b.footprints, t);
    places_are_exact(b.footprints, k);
    let ft = choose|f: int| #[trigger] plays(ctx, f, Role::Tvs);
    let fc = choose|f: int| #[trigger] plays(ctx, f, Role::Connector);
    assert(tvs.contains(ft));
    assert(con.contains(fc));
    let lines = lines_of(b, classes, con, tvs);
    let pads = ground_pads(b, classes, tvs);
    let others = reals.other_distances.deep_view();
    assert(others.len() == reals.other_distances@.len());
    assert(b.footprints.len() == ctx.board.footprints.len());
    assert forall|i: int| 0 <= i < tvs.len() implies plays(ctx, #[trigger] tvs[i], Role::Tvs) by {
        assert(tvs.contains(tvs[i]));
    }
    assert forall|i: int| 0 <= i < con.len() implies plays(ctx, #[trigger] con[i], Role::Connector) by {
        assert(con.contains(con[i]));
    }
    lines_hold(ctx, con, tvs);
    assert forall|f: usize, k: usize, t: int, n: Seq<char>|
        #[trigger] is_open_line(ctx, f, k, t, n) implies has_line(lines, f, k, t) by {
        assert(con.contains(f as int));
        assert(tvs.contains(t));
        lines_are_all_there(ctx, con, tvs, f, k, t, n);
    }
    assert forall|p: PadAt| #[trigger] pads.contains(p) <==> grounds(ctx, p) by {
        ground_pads_found(ctx, tvs, p);
        if grounds(ctx, p) {
            assert(tvs.contains(p.footprint as int));
        }
    }
    ordered_counted(lines, reals.tvs_distances@, others, lines.len() as int);
    ways_counted(b, pads, reals.in_fill@, reals.via_distances@, pads.len() as int);
    (lines, pads)
}

/// Without a suppressor or without a connector, no metric on discharges applies.
pub proof fn esd_needs_parts(pass: EsdPass, ctx: ScoreContext, reals: EsdReals, r: CategoryResult)
    requires
        EsdPass::run.ensures((&pass, &ctx, &reals), r),
        ctx.net_classes is None || !any_plays(ctx, Role::Tvs) || !any_plays(ctx, Role::Connector),
    ensures
        forall|i: int| 0 <= i < 5 ==> !(#[trigger] r.metrics.deep_view()[i]).applicable,
{
    let c = ctx.deep_view();
    if c.roles is Some {
        let b = c.board;
        let roles = c.roles->0;
        let t = |x: FootprintV| role_is(roles, x.reference, Role::Tvs);
        let k = |x: FootprintV| role_is(roles, x.reference, Role::Connector);
        let tvs = places(b.footprints, t);
        let con = places(b.footprints, k);
        places_are_exact(b.footprints, t);
        places_are_exact(b.footprints, k);
        if tvs.len() > 0 {
            assert(tvs.contains(tvs[0]));
            assert(plays(ctx, tvs[0], Role::Tvs));
        }
        if con.len() > 0 {
            assert(con.contains(con[0]));
            assert(plays(ctx, con[0], Role::Connector));
        }
    }
}

} // verus!
