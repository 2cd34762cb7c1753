//! Selections of the metrics of protection against discharges.
use vstd::prelude::*;

use crate::order::as_ints;
use crate::score::board::{BoardModel, BoardModelV, Pad, PadV};
use crate::score::classify::NetInfo;
use crate::score::metrics::context::{check_name, name_is, Classes, Trait};
use crate::score::metrics::power_select::{check_pad, pad_is};
use crate::sorted_map::{entry, map_find};
use crate::text::same;

verus! {

/// A pad on the board: the places of its footprint and of the pad in it.
#[derive(Clone, Copy, Debug, PartialEq, Eq, Structural)]
pub struct PadAt {
    pub footprint: usize,
    pub pad: usize,
}

impl DeepView for PadAt {
    type V = PadAt;

    open spec fn deep_view(&self) -> PadAt {
        *self
    }
}

/// The pad is on the board.
pub open spec fn on_board(b: BoardModelV, p: PadAt) -> bool {
    p.footprint < b.footprints.len() && p.pad < b.footprints[p.footprint as int].pads.len()
}

/// The pad at a place.
pub open spec fn pad_at(b: BoardModelV, p: PadAt) -> PadV {
    b.footprints[p.footprint as int].pads[p.pad as int]
}

/// The pad is on a net of the given name.
pub open spec fn on_name(p: PadV, name: Seq<char>) -> bool {
    p.net_name == Some(name)
}

fn check_on_name(p: &Pad, name: &str) -> (r: bool)
    ensures
        r == on_name(p.deep_view(), name@),
{
    match &p.net_name {
        Some(own) => same(own.as_str(), name),
        None => false,
    }
}

/// The place of the first of the pads on a net of the given name.
pub open spec fn first_on(pads: Seq<PadV>, name: Seq<char>) -> Option<int>
    decreases pads.len(),
{
    if pads.len() == 0 {
        None
    } else {
        match first_on(pads.drop_last(), name) {
            Some(k) => Some(k),
            None => if on_name(pads.last(), name) {
                Some(pads.len() - 1)
            } else {
                None
            },
        }
    }
}

/// The place of the first of the pads on a net of the given name.
pub fn find_first_on(pads: &Vec<Pad>, name: &str) -> (r: Option<usize>)
    ensures
        match r {
            Some(k) => first_on(pads.deep_view(), name@) == Some(k as int) && k < pads@.len(),
            None => first_on(pads.deep_view(), name@) is None,
        },
{
    let ghost pv = pads.deep_view();
    let n: usize = pads.len();
    let mut best: Option<usize> = None;
    let mut i: usize = 0;
    while i < n
        invariant
            n == pads@.len(),
            i <= n,
            pv == pads.deep_view(),
            match best {
                Some(k) => first_on(pv.take(i as int), name@) == Some(k as int) && k < n,
                None => first_on(pv.take(i as int), name@) is None,
            },
        decreases n - i,
    {
        assert(pv.take(i + 1).drop_last() =~= pv.take(i as int));
        assert(pv[i as int] == pads@[i as int].deep_view());
        if best.is_none() && check_on_name(&pads[i], name) {
            best = Some(i);
        }
        i += 1;
    }
    assert(pv.take(n as int) =~= pv);
    best
}

/// The pads on a net of the given name among the first `k` of footprint `f`.
pub open spec fn pads_on(pads: Seq<PadV>, f: int, name: Seq<char>, k: int) -> Seq<PadAt>
    decreases k,
{
    if k <= 0 {
        Seq::empty()
    } else {
        let front = pads_on(pads, f, name, k - 1);
        if on_name(pads[k - 1], name) {
            front.push(PadAt { footprint: f as usize, pad: (k - 1) as usize })
        } else {
            front
        }
    }
}

/// The pads on a net of the given name of those of the first `n` footprints whose reference is
/// neither of the two given.
pub open spec fn third_pads(
    b: BoardModelV,
    name: Seq<char>,
    first: Seq<char>,
    second: Seq<char>,
    n: int,
) -> Seq<PadAt>
    decreases n,
{
    if n <= 0 {
        Seq::empty()
    } else {
        let front = third_pads(b, name, first, second, n - 1);
        let f = b.footprints[n - 1];
        if f.reference != first && f.reference != second {
            front + pads_on(f.pads, n - 1, name, f.pads.len() as int)
        } else {
            front
        }
    }
}

fn find_third_pads(board: &BoardModel, name: &str, first: &str, second: &str) -> (r: Vec<PadAt>)
    ensures
        r@ == third_pads(
            board.deep_view(),
            name@,
            first@,
            second@,
            board.footprints@.len() as int,
        ),
{
    let ghost bv = board.deep_view();
    let n: usize = board.footprints.len();
    let mut out: Vec<PadAt> = Vec::new();
    let mut i: usize = 0;
    while i < n
        invariant
            n == board.footprints@.len(),
            i <= n,
            bv == board.deep_view(),
            out@ == third_pads(bv, name@, first@, second@, i as int),
        decreases n - i,
    {
        let f = &board.footprints[i];
        let ghost fv = bv.footprints[i as int];
        assert(fv == board.footprints@[i as int].deep_view());
        if !same(f.reference.as_str(), first) && !same(f.reference.as_str(), second) {
            let ghost base = out@;
            let m: usize = f.pads.len();
            let mut k: usize = 0;
            while k < m
                invariant
                    m == f.pads@.len(),
                    k <= m,
                    fv == f.deep_view(),
                    out@ == base + pads_on(fv.pads, i as int, name@, k as int),
                decreases m - k,
            {
                assert(fv.pads[k as int] == f.pads@[k as int].deep_view());
                let ghost before = out@;
                if check_on_name(&f.pads[k], name) {
                    out.push(PadAt { footprint: i, pad: k });
                    assert(out@ =~= base + pads_on(fv.pads, i as int, name@, k + 1));
                }
                k += 1;
            }
        }
        i += 1;
    }
    out
}

/// A protected line: a net with a pad of a connector and a pad of a suppressor.
pub struct Line {
    pub net_name: String,
    pub connector: PadAt,
    pub suppressor: PadAt,
    /// The pads of other components on the net.
    pub others: Vec<PadAt>,
}

/// The value of a `Line`.
#[verifier::ext_equal]
pub struct LineV {
    pub net_name: Seq<char>,
    pub connector: PadAt,
    pub suppressor: PadAt,
    pub others: Seq<PadAt>,
}

impl DeepView for Line {
    type V = LineV;

    open spec fn deep_view(&self) -> LineV {
        LineV {
            net_name: self.net_name@,
            connector: self.connector,
            suppressor: self.suppressor,
            others: self.others@,
        }
    }
}

/// The line from a pad of a connector to the suppressor at place `t`, if that has a pad on the
/// net.
pub open spec fn line_to(b: BoardModelV, name: Seq<char>, c: PadAt, t: int) -> Option<LineV> {
    match first_on(b.footprints[t].pads, name) {
        Some(k) => Some(
            LineV {
                net_name: name,
                connector: c,
                suppressor: PadAt { footprint: t as usize, pad: k as usize },
                others: third_pads(
                    b,
                    name,
                    b.footprints[t].reference,
                    b.footprints[c.footprint as int].reference,
                    b.footprints.len() as int,
                ),
            },
        ),
        None => None,
    }
}

/// The lines from a pad of a connector to suppressors.
pub open spec fn lines_to(b: BoardModelV, name: Seq<char>, c: PadAt, tvs: Seq<int>) -> Seq<LineV>
    decreases tvs.len(),
{
    if tvs.len() == 0 {
        Seq::empty()
    } else {
        let front = lines_to(b, name, c, tvs.drop_last());
        match line_to(b, name, c, tvs.last()) {
            Some(l) => front.push(l),
            None => front,
        }
    }
}

/// The lines of one pad of a connector: its net is known and no ground net.
pub open spec fn lines_of_pad(b: BoardModelV, classes: Classes, c: PadAt, tvs: Seq<int>) -> Seq<
    LineV,
> {
    match pad_at(b, c).net_name {
        Some(name) => if map_find(classes, name) is Some && !name_is(
            classes,
            name,
            Trait::Ground,
        ) {
            lines_to(b, name, c, tvs)
        } else {
            Seq::empty()
        },
        None => Seq::empty(),
    }
}

/// The lines of the first `k` pads of the connector at place `f`.
pub open spec fn lines_of_connector(
    b: BoardModelV,
    classes: Classes,
    f: int,
    tvs: Seq<int>,
    k: int,
) -> Seq<LineV>
    decreases k,
{
    if k <= 0 {
        Seq::empty()
    } else {
        lines_of_connector(b, classes, f, tvs, k - 1) + lines_of_pad(
            b,
            classes,
            PadAt { footprint: f as usize, pad: (k - 1) as usize },
            tvs,
        )
    }
}

/// The protected lines of the connectors.
pub open spec fn lines_of(b: BoardModelV, classes: Classes, connectors: Seq<int>, tvs: Seq<int>) -> Seq<
    LineV,
>
    decreases connectors.len(),
{
    if connectors.len() == 0 {
        Seq::empty()
    } else {
        let f = connectors.last();
        lines_of(b, classes, connectors.drop_last(), tvs) + lines_of_connector(
            b,
            classes,
            f,
            tvs,
            b.footprints[f].pads.len() as int,
        )
    }
}

fn add_lines(board: &BoardModel, name: &str, c: PadAt, tvs: &Vec<usize>, out: &mut Vec<Line>)
    requires
        c.footprint < board.footprints@.len(),
        forall|i: int| 0 <= i < tvs@.len() ==> (#[trigger] tvs@[i]) < board.footprints@.len(),
    ensures
        final(out).deep_view() == old(out).deep_view() + lines_to(
            board.deep_view(),
            name@,
            c,
            as_ints(tvs@),
        ),
{
    let ghost bv = board.deep_view();
    let ghost tv = as_ints(tvs@);
    let ghost base = out.deep_view();
    let n: usize = tvs.len();
    let mut i: usize = 0;
    assert(base + lines_to(bv, name@, c, tv.take(0)) =~= base);
    while i < n
        invariant
            n == tvs@.len(),
            i <= n,
            bv == board.deep_view(),
            tv == as_ints(tvs@),
            c.footprint < board.footprints@.len(),
            forall|j: int| 0 <= j < tvs@.len() ==> (#[trigger] tvs@[j]) < board.footprints@.len(),
            out.deep_view() == base + lines_to(bv, name@, c, tv.take(i as int)),
        decreases n - i,
    {
        let ghost before = out.deep_view();
        assert(tv.take(i + 1).drop_last() =~= tv.take(i as int));
        let t: usize = tvs[i];
        assert(bv.footprints[t as int] == board.footprints@[t as int].deep_view());
        assert(bv.footprints[c.footprint as int]
            == board.footprints@[c.footprint as int].deep_view());
        match find_first_on(&board.footprints[t].pads, name) {
            Some(k) => {
                let others = find_third_pads(
                    board,
                    name,
                    board.footprints[t].reference.as_str(),
                    board.footprints[c.footprint].reference.as_str(),
                );
                let line = Line {
                    net_name: name.to_string(),
                    connector: c,
                    suppressor: PadAt { footprint: t, pad: k },
                    others,
                };
                let ghost lv = line.deep_view();
                assert(lv =~= line_to(bv, name@, c, t as int)->0);
                out.push(line);
                assert(out.deep_view() =~= before.push(lv));
                assert(out.deep_view() =~= base + lines_to(bv, name@, c, tv.take(i + 1)));
            },
            None => {},
        }
        i += 1;
    }
    assert(tv.take(n as int) =~= tv);
}

/// The protected lines of the connectors.
pub fn find_lines(
    board: &BoardModel,
    classes: &Vec<(String, NetInfo)>,
    connectors: &Vec<usize>,
    tvs: &Vec<usize>,
) -> (r: Vec<Line>)
    requires
        forall|i: int| 0 <= i < tvs@.len() ==> (#[trigger] tvs@[i]) < board.footprints@.len(),
        forall|i: int|
            0 <= i < connectors@.len() ==> (#[trigger] connectors@[i]) < board.footprints@.len(),
    ensures
        r.deep_view() == lines_of(
            board.deep_view(),
            classes.deep_view(),
            as_ints(connectors@),
            as_ints(tvs@),
        ),
{
    let ghost bv = board.deep_view();
    let ghost cv = classes.deep_view();
    let ghost tv = as_ints(tvs@);
    let ghost kv = as_ints(connectors@);
    let n: usize = connectors.len();
    let mut out: Vec<Line> = Vec::new();
    let mut i: usize = 0;
    assert(out.deep_view() =~= lines_of(bv, cv, kv.take(0), tv));
    while i < n
        invariant
            n == connectors@.len(),
            i <= n,
            bv == board.deep_view(),
            cv == classes.deep_view(),
            tv == as_ints(tvs@),
            kv == as_ints(connectors@),
            forall|j: int| 0 <= j < tvs@.len() ==> (#[trigger] tvs@[j]) < board.footprints@.len(),
            forall|j: int|
                0 <= j < connectors@.len() ==> (#[trigger] connectors@[j])
                    < board.footprints@.len(),
            out.deep_view() == lines_of(bv, cv, kv.take(i as int), tv),
        decreases n - i,
    {
        assert(kv.take(i + 1).drop_last() =~= kv.take(i as int));
        let f: usize = connectors[i];
        let ghost fv = bv.footprints[f as int];
        assert(fv == board.footprints@[f as int].deep_view());
        let ghost base = out.deep_view();
        let m: usize = board.footprints[f].pads.len();
        assert(fv.pads.len() == m);
        let mut k: usize = 0;
        assert(base + lines_of_connector(bv, cv, f as int, tv, 0) =~= base);
        while k < m
            invariant
                f < board.footprints@.len(),
                m == board.footprints@[f as int].pads@.len(),
                k <= m,
                bv == board.deep_view(),
                cv == classes.deep_view(),
                tv == as_ints(tvs@),
                fv == bv.footprints[f as int],
                forall|j: int|
                    0 <= j < tvs@.len() ==> (#[trigger] tvs@[j]) < board.footprints@.len(),
                out.deep_view() == base + lines_of_connector(bv, cv, f as int, tv, k as int),
            decreases m - k,
        {
            assert(fv == board.footprints@[f as int].deep_view());
            assert(fv.pads[k as int] == board.footprints@[f as int].pads@[k as int].deep_view());
            let c = PadAt { footprint: f, pad: k };
            let ghost before = out.deep_view();
            match &board.footprints[f].pads[k].net_name {
                Some(name) => {
                    if entry(classes, name).is_some() && !check_name(classes, name, Trait::Ground) {
                        add_lines(board, name.as_str(), c, tvs, &mut out);
                    }
                },
                None => {},
            }
            assert(out.deep_view() =~= before + lines_of_pad(bv, cv, c, tv));
            assert(out.deep_view() =~= base + lines_of_connector(bv, cv, f as int, tv, k + 1));
            k += 1;
        }
        i += 1;
    }
    assert(kv.take(n as int) =~= kv);
    out
}

/// The ground pads among the first `k` of the footprint at place `f`.
pub open spec fn ground_pads_in(b: BoardModelV, classes: Classes, f: int, k: int) -> Seq<PadAt>
    decreases k,
{
    if k <= 0 {
        Seq::empty()
    } else {
        let front = ground_pads_in(b, classes, f, k - 1);
        if pad_is(classes, b.footprints[f].pads[k - 1], Trait::Ground) {
            front.push(PadAt { footprint: f as usize, pad: (k - 1) as usize })
        } else {
            front
        }
    }
}

/// The ground pads of the footprints at the given places.
pub open spec fn ground_pads(b: BoardModelV, classes: Classes, at: Seq<int>) -> Seq<PadAt>
    decreases at.len(),
{
    if at.len() == 0 {
        Seq::empty()
    } else {
        ground_pads(b, classes, at.drop_last()) + ground_pads_in(
            b,
            classes,
            at.last(),
            b.footprints[at.last()].pads.len() as int,
        )
    }
}

/// The ground pads of the footprints at the given places.
pub fn find_ground_pads(
    board: &BoardModel,
    classes: &Vec<(String, NetInfo)>,
    at: &Vec<usize>,
) -> (r: Vec<PadAt>)
    requires
        forall|i: int| 0 <= i < at@.len() ==> (#[trigger] at@[i]) < board.footprints@.len(),
    ensures
        r@ == ground_pads(board.deep_view(), classes.deep_view(), as_ints(at@)),
        forall|i: int| 0 <= i < r@.len() ==> on_board(board.deep_view(), #[trigger] r@[i]),
{
    let ghost bv = board.deep_view();
    let ghost cv = classes.deep_view();
    let ghost av = as_ints(at@);
    let n: usize = at.len();
    let mut out: Vec<PadAt> = Vec::new();
    let mut i: usize = 0;
    assert(out@ =~= ground_pads(bv, cv, av.take(0)));
    while i < n
        invariant
            n == at@.len(),
            i <= n,
            bv == board.deep_view(),
            cv == classes.deep_view(),
            av == as_ints(at@),
            forall|j: int| 0 <= j < at@.len() ==> (#[trigger] at@[j]) < board.footprints@.len(),
            out@ == ground_pads(bv, cv, av.take(i as int)),
            forall|j: int| 0 <= j < out@.len() ==> on_board(bv, #[trigger] out@[j]),
        decreases n - i,
    {
        assert(av.take(i + 1).drop_last() =~= av.take(i as int));
        let f: usize = at[i];
        let ghost fv = bv.footprints[f as int];
        assert(fv == board.footprints@[f as int].deep_view());
        let ghost base = out@;
        let m: usize = board.footprints[f].pads.len();
        assert(fv.pads.len() == m);
        let mut k: usize = 0;
        assert(base + ground_pads_in(bv, cv, f as int, 0) =~= base);
        while k < m
            invariant
                f < board.footprints@.len(),
                m == board.footprints@[f as int].pads@.len(),
                k <= m,
                bv == board.deep_view(),
                cv == classes.deep_view(),
                fv == bv.footprints[f as int],
                fv.pads.len() == m,
                bv.footprints.len() == board.footprints@.len(),
                out@ == base + ground_pads_in(bv, cv, f as int, k as int),
                forall|j: int| 0 <= j < out@.len() ==> on_board(bv, #[trigger] out@[j]),
            decreases m - k,
        {
            assert(fv == board.footprints@[f as int].deep_view());
            assert(fv.pads[k as int] == board.footprints@[f as int].pads@[k as int].deep_view());
            if check_pad(classes, &board.footprints[f].pads[k], Trait::Ground) {
                out.push(PadAt { footprint: f, pad: k });
                assert(out@ =~= base + ground_pads_in(bv, cv, f as int, k + 1));
            }
            k += 1;
        }
        i += 1;
    }
    assert(av.take(n as int) =~= av);
    out
}

/// The signal pads among the first `k` of a connector: their nets are known and neither power
/// nor ground nets. By the names of the nets.
pub open spec fn signals_in(classes: Classes, pads: Seq<PadV>, k: int) -> Seq<Seq<char>>
    decreases k,
{
    if k <= 0 {
        Seq::empty()
    } else {
        let front = signals_in(classes, pads, k - 1);
        match pads[k - 1].net_name {
            Some(name) => if map_find(classes, name) is Some && !name_is(
                classes,
                name,
                Trait::Reference,
            ) {
                front.push(name)
            } else {
                front
            },
            None => front,
        }
    }
}

/// The signal pads of connectors, by the names of their nets.
pub open spec fn signals(b: BoardModelV, classes: Classes, at: Seq<int>) -> Seq<Seq<char>>
    decreases at.len(),
{
    if at.len() == 0 {
        Seq::empty()
    } else {
        let pads = b.footprints[at.last()].pads;
        signals(b, classes, at.drop_last()) + signals_in(classes, pads, pads.len() as int)
    }
}

/// The signal pads of connectors, by the names of their nets.
pub fn find_signals(board: &BoardModel, classes: &Vec<(String, NetInfo)>, at: &Vec<usize>) -> (r:
    Vec<String>)
    requires
        forall|i: int| 0 <= i < at@.len() ==> (#[trigger] at@[i]) < board.footprints@.len(),
    ensures
        r.deep_view() == signals(board.deep_view(), classes.deep_view(), as_ints(at@)),
{
    let ghost bv = board.deep_view();
    let ghost cv = classes.deep_view();
    let ghost av = as_ints(at@);
    let n: usize = at.len();
    let mut out: Vec<String> = Vec::new();
    let mut i: usize = 0;
    assert(out.deep_view() =~= signals(bv, cv, av.take(0)));
    while i < n
        invariant
            n == at@.len(),
            i <= n,
            bv == board.deep_view(),
            cv == classes.deep_view(),
            av == as_ints(at@),
            forall|j: int| 0 <= j < at@.len() ==> (#[trigger] at@[j]) < board.footprints@.len(),
            out.deep_view() == signals(bv, cv, av.take(i as int)),
        decreases n - i,
    {
        assert(av.take(i + 1).drop_last() =~= av.take(i as int));
        let f: usize = at[i];
        let ghost fv = bv.footprints[f as int];
        assert(fv == board.footprints@[f as int].deep_view());
        let pads = &board.footprints[f].pads;
        let ghost pv = fv.pads;
        let ghost base = out.deep_view();
        let m: usize = pads.len();
        assert(pv.len() == m);
        let mut k: usize = 0;
        assert(base + signals_in(cv, pv, 0) =~= base);
        while k < m
            invariant
                m == pads@.len(),
                k <= m,
                cv == classes.deep_view(),
                pv == pads.deep_view(),
                out.deep_view() == base + signals_in(cv, pv, k as int),
            decreases m - k,
        {
            assert(pv[k as int] == pads@[k as int].deep_view());
            let ghost before = out.deep_view();
            match &pads[k].net_name {
                Some(name) => {
                    if entry(classes, name).is_some() && !check_name(
                        classes,
                        name,
                        Trait::Reference,
                    ) {
                        out.push(name.clone());
                        assert(out.deep_view() =~= before.push(name@));
                        assert(out.deep_view() =~= base + signals_in(cv, pv, k + 1));
                    }
                },
                None => {},
            }
            k += 1;
        }
        i += 1;
    }
    assert(av.take(n as int) =~= av);
    out
}

/// Some suppressor has a pad on the net of the given name.
pub open spec fn is_protected(b: BoardModelV, tvs: Seq<int>, name: Seq<char>) -> bool {
    exists|i: int|
        0 <= i < tvs.len() && first_on(b.footprints[#[trigger] tvs[i]].pads, name) is Some
}

/// Whether some suppressor has a pad on the net of the given name.
pub fn check_protected(board: &BoardModel, tvs: &Vec<usize>, name: &str) -> (r: bool)
    requires
        forall|i: int| 0 <= i < tvs@.len() ==> (#[trigger] tvs@[i]) < board.footprints@.len(),
    ensures
        r == is_protected(board.deep_view(), as_ints(tvs@), name@),
{
    let ghost bv = board.deep_view();
    let ghost tv = as_ints(tvs@);
    let n: usize = tvs.len();
    let mut i: usize = 0;
    while i < n
        invariant
            n == tvs@.len(),
            i <= n,
            bv == board.deep_view(),
            tv == as_ints(tvs@),
            forall|j: int| 0 <= j < tvs@.len() ==> (#[trigger] tvs@[j]) < board.footprints@.len(),
            forall|j: int|
                0 <= j < i ==> first_on(bv.footprints[#[trigger] tv[j]].pads, name@) is None,
        decreases n - i,
    {
        let t: usize = tvs[i];
        assert(tv[i as int] == t);
        assert(bv.footprints[t as int] == board.footprints@[t as int].deep_view());
        if find_first_on(&board.footprints[t].pads, name).is_some() {
            return true;
        }
        i += 1;
    }
    false
}

/// A net is protected exactly where a suppressor has a pad on it.
pub proof fn first_on_is_exact(pads: Seq<PadV>, name: Seq<char>)
    ensures
        first_on(pads, name) is Some <==> exists|i: int|
            0 <= i < pads.len() && on_name(#[trigger] pads[i], name),
        first_on(pads, name) matches Some(k) ==> 0 <= k < pads.len() && on_name(pads[k], name)
            && forall|i: int| 0 <= i < k ==> !on_name(#[trigger] pads[i], name),
    decreases pads.len(),
{
    if pads.len() > 0 {
        let front = pads.drop_last();
        first_on_is_exact(front, name);
        assert forall|i: int| 0 <= i < front.len() implies front[i] == pads[i] by {}
        match first_on(front, name) {
            Some(k) => {
                assert(on_name(pads[k], name));
                assert forall|i: int| 0 <= i < k implies !on_name(#[trigger] pads[i], name) by {
                    assert(front[i] == pads[i]);
                }
            },
            None => {
                assert forall|i: int| 0 <= i < front.len() implies !on_name(
                    #[trigger] pads[i],
                    name,
                ) by {
                    assert(!on_name(front[i], name));
                }
                assert(pads.last() == pads[pads.len() - 1]);
            },
        }
    }
}

} // verus!
