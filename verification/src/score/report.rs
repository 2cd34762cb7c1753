//! Putting the report of a board together.
use vstd::prelude::*;

use crate::number::Real;
use crate::score::board::{used_nets, BoardModel};
use crate::score::gates::{
    compute_gates, fully_connected, free_of_errors, headline_score, kind_counts, routable_count,
    routed_count, severity_count, standing_count,
};
use crate::score::metrics::context::{DrcReportV, ScoreContext, ScoreContextV};
use crate::score::metrics::families::{families_fit, family_results, run_families, FamilyReals};
use crate::score::model::{
    BoardSummary, CategoryResult, Gates, Generator, InputsSummary, SCHEMA_VERSION,
};
use crate::score::net_stats::NetStatsV;

verus! {

/// The SHA-256 hash of a text: of the bytes of its UTF-8 form.
pub uninterp spec fn sha256_of(text: Seq<char>) -> Seq<u8>;

/// Calls `sha2::Sha256::digest` on the UTF-8 bytes of the text. The contract claims that the
/// result depends on the text alone and has 32 bytes; it does not say which bytes these are.
#[verifier::external_body]
fn sha256(text: &str) -> (r: Vec<u8>)
    ensures
        r@ == sha256_of(text@),
        r@.len() == 32,
{
    <sha2::Sha256 as sha2::Digest>::digest(text.as_bytes()).to_vec()
}

/// The character of a hexadecimal digit, in lower case.
pub open spec fn hex_digit(d: int) -> char {
    if d == 0 {
        '0'
    } else if d == 1 {
        '1'
    } else if d == 2 {
        '2'
    } else if d == 3 {
        '3'
    } else if d == 4 {
        '4'
    } else if d == 5 {
        '5'
    } else if d == 6 {
        '6'
    } else if d == 7 {
        '7'
    } else if d == 8 {
        '8'
    } else if d == 9 {
        '9'
    } else if d == 10 {
        'a'
    } else if d == 11 {
        'b'
    } else if d == 12 {
        'c'
    } else if d == 13 {
        'd'
    } else if d == 14 {
        'e'
    } else {
        'f'
    }
}

/// The bytes in hexadecimal, two digits each.
pub open spec fn hex_of(bytes: Seq<u8>) -> Seq<char>
    decreases bytes.len(),
{
    if bytes.len() == 0 {
        Seq::empty()
    } else {
        hex_of(bytes.drop_last()).push(hex_digit((bytes.last() / 16) as int)).push(
            hex_digit((bytes.last() % 16) as int),
        )
    }
}

fn hex_digit_text(d: u8) -> (r: &'static str)
    requires
        d < 16,
    ensures
        r@ == seq![hex_digit(d as int)],
{
    proof {
        reveal_strlit("0");
        reveal_strlit("1");
        reveal_strlit("2");
        reveal_strlit("3");
        reveal_strlit("4");
        reveal_strlit("5");
        reveal_strlit("6");
        reveal_strlit("7");
        reveal_strlit("8");
        reveal_strlit("9");
        reveal_strlit("a");
        reveal_strlit("b");
        reveal_strlit("c");
        reveal_strlit("d");
        reveal_strlit("e");
        reveal_strlit("f");
    }
    let r: &'static str = match d {
        0 => "0",
        1 => "1",
        2 => "2",
        3 => "3",
        4 => "4",
        5 => "5",
        6 => "6",
        7 => "7",
        8 => "8",
        9 => "9",
        10 => "a",
        11 => "b",
        12 => "c",
        13 => "d",
        14 => "e",
        _ => "f",
    };
    assert(r@ =~= seq![hex_digit(d as int)]);
    r
}

/// The bytes in hexadecimal, two digits each.
pub fn hex_text(bytes: &Vec<u8>) -> (r: String)
    ensures
        r@ == hex_of(bytes@),
{
    let n: usize = bytes.len();
    let mut out: String = String::new();
    let mut i: usize = 0;
    assert(out@ =~= hex_of(bytes@.take(0)));
    while i < n
        invariant
            n == bytes@.len(),
            i <= n,
            out@ == hex_of(bytes@.take(i as int)),
        decreases n - i,
    {
        assert(bytes@.take(i + 1).drop_last() =~= bytes@.take(i as int));
        let b: u8 = bytes[i];
        let ghost before = out@;
        out = out.concat(hex_digit_text(b / 16)).concat(hex_digit_text(b % 16));
        assert(out@ =~= before.push(hex_digit((b / 16) as int)).push(hex_digit((b % 16) as int)));
        i += 1;
    }
    assert(bytes@.take(n as int) =~= bytes@);
    out
}

/// Each byte takes two digits.
pub proof fn hex_is_twice_as_long(bytes: Seq<u8>)
    ensures
        hex_of(bytes).len() == 2 * bytes.len(),
    decreases bytes.len(),
{
    if bytes.len() > 0 {
        hex_is_twice_as_long(bytes.drop_last());
    }
}

proof fn hex_digits_differ(a: int, b: int)
    requires
        0 <= a < 16,
        0 <= b < 16,
        hex_digit(a) == hex_digit(b),
    ensures
        a == b,
{
}

/// The hexadecimal form tells bytes apart.
pub proof fn hex_tells_apart(x: Seq<u8>, y: Seq<u8>)
    requires
        hex_of(x) == hex_of(y),
    ensures
        x == y,
    decreases x.len(),
{
    hex_is_twice_as_long(x);
    hex_is_twice_as_long(y);
    if x.len() > 0 {
        let fx = hex_of(x.drop_last());
        let fy = hex_of(y.drop_last());
        let hx = hex_of(x);
        let hy = hex_of(y);
        let n = hx.len() as int;
        assert(hx.take(n - 2) =~= fx);
        assert(hy.take(n - 2) =~= fy);
        hex_tells_apart(x.drop_last(), y.drop_last());
        assert(hx[n - 2] == hex_digit((x.last() / 16) as int));
        assert(hy[n - 2] == hex_digit((y.last() / 16) as int));
        assert(hx[n - 1] == hex_digit((x.last() % 16) as int));
        assert(hy[n - 1] == hex_digit((y.last() % 16) as int));
        hex_digits_differ((x.last() / 16) as int, (y.last() / 16) as int);
        hex_digits_differ((x.last() % 16) as int, (y.last() % 16) as int);
        assert(x.last() == y.last());
        assert(x =~= x.drop_last().push(x.last()));
        assert(y =~= y.drop_last().push(y.last()));
    } else {
        assert(x =~= y);
    }
}

/// The SHA-256 hash of a text in hexadecimal.
pub fn hex_sha256(content: &str) -> (r: String)
    ensures
        r@ == hex_of(sha256_of(content@)),
        r@.len() == 64,
{
    let digest = sha256(content);
    proof {
        hex_is_twice_as_long(digest@);
    }
    hex_text(&digest)
}

/// The report on a board.
#[derive(Debug)]
pub struct ScoreReport {
    pub schema_version: u32,
    pub generator: Generator,
    pub board: BoardSummary,
    pub inputs: InputsSummary,
    pub gates: Gates,
    /// The quality, or zero while a gate fails.
    pub score: Real,
    /// What an optimizer is to raise; it grows as nets connect and errors disappear.
    pub fitness: Real,
    /// The weighted mean of the scores of the families, up to 100.
    pub quality: Real,
    pub categories: Vec<CategoryResult>,
}

/// The gates of a board with the given statistics and report of the design rule check.
pub open spec fn judges(g: Gates, stats: Seq<NetStatsV>, drc: Option<DrcReportV>) -> bool {
    &&& g.passed == (fully_connected(stats, drc) && free_of_errors(drc))
    &&& g.connectivity.passed == fully_connected(stats, drc)
    &&& g.connectivity.connected_nets == routed_count(stats)
    &&& g.connectivity.total_nets == routable_count(stats)
    &&& g.drc_errors.passed == free_of_errors(drc)
    &&& match drc {
        Some(d) => {
            &&& g.connectivity.drc_unconnected_items is Some
            &&& g.connectivity.drc_unconnected_items->0 == standing_count(d.unconnected_items)
            &&& g.drc_errors.count == severity_count(d.violations, "error"@)
            &&& g.drc_errors.by_kind.deep_view() == kind_counts(d.violations, "error"@)
        },
        None => {
            &&& g.connectivity.drc_unconnected_items is None
            &&& g.drc_errors.count == 0
            &&& g.drc_errors.by_kind.deep_view() == Seq::<(Seq<char>, usize)>::empty()
        },
    }
}

/// What board was scored.
pub fn summarize_board(board: &BoardModel, path: &str, source: &str) -> (r: BoardSummary)
    ensures
        r.path@ == path@,
        r.sha256@ == hex_of(sha256_of(source@)),
        r.copper_layers == board.deep_view().copper_layers.len(),
        r.nets == used_nets(board.deep_view()).len(),
        r.components == board.deep_view().footprints.len(),
{
    assert(board.deep_view().copper_layers.len() == board.copper_layers@.len());
    assert(board.deep_view().footprints.len() == board.footprints@.len());
    let nets = board.used_net_ids();
    BoardSummary {
        path: path.to_string(),
        sha256: hex_sha256(source),
        copper_layers: board.copper_layers.len(),
        nets: nets.len(),
        components: board.footprints.len(),
    }
}

/// The report on a board, but for how the quality and the fitness are computed.
pub open spec fn is_report(
    r: ScoreReport,
    c: ScoreContextV,
    path: Seq<char>,
    source: Seq<char>,
    version: Seq<char>,
    m: FamilyReals,
) -> bool {
    &&& r.schema_version == SCHEMA_VERSION
    &&& r.generator.tool@ == "pcb-score"@
    &&& r.generator.version@ == version
    &&& r.board.path@ == path
    &&& r.board.sha256@ == hex_of(sha256_of(source))
    &&& r.board.copper_layers == c.board.copper_layers.len()
    &&& r.board.nets == used_nets(c.board).len()
    &&& r.board.components == c.board.footprints.len()
    &&& r.inputs.netlist_available == (c.net_classes is Some)
    &&& r.inputs.drc_ran == (c.drc is Some)
    &&& judges(r.gates, c.net_stats, c.drc)
    &&& r.categories.deep_view() == family_results(c, m)
    &&& r.score == if r.gates.passed {
        r.quality
    } else {
        crate::number::zero()
    }
}

/// The report on a board: the results of all families in report order, the quality and the fitness
/// that `grade` gives of these results and the gates, and a score that is the quality, or zero
/// while a gate fails.
pub fn assemble_report<F: Fn(&Vec<CategoryResult>, &Gates) -> (Real, Real)>(
    ctx: &ScoreContext,
    path: &str,
    source: &str,
    version: &str,
    reals: &FamilyReals,
    grade: F,
) -> (r: ScoreReport)
    requires
        families_fit(ctx.deep_view(), *reals),
        forall|c: &Vec<CategoryResult>, g: &Gates| #[trigger] grade.requires((c, g)),
    ensures
        is_report(r, ctx.deep_view(), path@, source@, version@, *reals),
        grade.ensures((&r.categories, &r.gates), (r.quality, r.fitness)),
{
    let categories = run_families(ctx, reals);
    let gates = compute_gates(&ctx.net_stats, &ctx.drc);
    let (quality, fitness): (Real, Real) = grade(&categories, &gates);
    let score = headline_score(&gates, quality);
    ScoreReport {
        schema_version: SCHEMA_VERSION,
        generator: Generator { tool: "pcb-score".to_string(), version: version.to_string() },
        board: summarize_board(&ctx.board, path, source),
        inputs: InputsSummary {
            netlist_available: ctx.net_classes.is_some(),
            drc_ran: ctx.drc.is_some(),
        },
        gates,
        score,
        fitness,
        quality,
        categories,
    }
}

/// The same inputs give the same report, where the quality and the fitness are computed alike.
pub proof fn same_inputs_give_the_same_report(
    a: ScoreReport,
    b: ScoreReport,
    c: ScoreContextV,
    path: Seq<char>,
    source: Seq<char>,
    version: Seq<char>,
    m: FamilyReals,
)
    requires
        is_report(a, c, path, source, version, m),
        is_report(b, c, path, source, version, m),
        a.quality == b.quality,
        a.fitness == b.fitness,
    ensures
        a.schema_version == b.schema_version,
        a.generator.tool@ == b.generator.tool@,
        a.generator.version@ == b.generator.version@,
        a.board.path@ == b.board.path@,
        a.board.sha256@ == b.board.sha256@,
        a.board.copper_layers == b.board.copper_layers,
        a.board.nets == b.board.nets,
        a.board.components == b.board.components,
        a.inputs == b.inputs,
        a.gates.passed == b.gates.passed,
        a.gates.connectivity == b.gates.connectivity,
        a.gates.drc_errors.passed == b.gates.drc_errors.passed,
        a.gates.drc_errors.count == b.gates.drc_errors.count,
        a.gates.drc_errors.by_kind.deep_view() == b.gates.drc_errors.by_kind.deep_view(),
        a.score == b.score,
        a.categories.deep_view() == b.categories.deep_view(),
{
}

/// A board that is not fully routed, or has errors, scores zero.
pub proof fn gates_block_the_score(
    r: ScoreReport,
    stats: Seq<NetStatsV>,
    drc: Option<DrcReportV>,
)
    requires
        judges(r.gates, stats, drc),
        r.score == if r.gates.passed {
            r.quality
        } else {
            crate::number::zero()
        },
    ensures
        routed_count(stats) != routable_count(stats) ==> r.score == crate::number::zero(),
        (drc matches Some(d) && severity_count(d.violations, "error"@) > 0) ==> r.score
            == crate::number::zero(),
{
}

} // verus!
