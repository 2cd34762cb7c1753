//! What a board that was read holds of its file.
use vstd::prelude::*;

use crate::score::board::BoardModel;
use crate::score::board_read::{board_of, copper_layer_of, copper_layers_of, with_node};
use crate::score::sexpr::{Sexpr, SexprV};
use crate::text::ends_in;

verus! {

/// The item of a file at place `j` is a list that starts with the given symbol.
pub open spec fn is_section(items: Seq<SexprV>, j: int, tag: Seq<char>) -> bool {
    &&& 1 <= j < items.len()
    &&& items[j] is List
    &&& items[j]->List_0.len() > 0
    &&& items[j]->List_0[0] is Atom
    &&& items[j]->List_0[0]->Atom_0.sym == Some(tag)
}

/// Entry `k` of the section at place `j` declares a layer of the given name and kind.
pub open spec fn declares_layer(
    items: Seq<SexprV>,
    j: int,
    k: int,
    name: Seq<char>,
    kind: Seq<char>,
) -> bool {
    &&& is_section(items, j, "layers"@)
    &&& 1 <= k < items[j]->List_0.len()
    &&& items[j]->List_0[k] is List
    &&& ({
        let f = items[j]->List_0[k]->List_0;
        &&& f.len() > 2
        &&& f[1] is Atom
        &&& f[2] is Atom
        &&& f[1]->Atom_0.text == Some(name)
        &&& f[2]->Atom_0.sym == Some(kind)
    })
}

/// A layer of the name and kind is copper that carries signals.
pub open spec fn is_copper(name: Seq<char>, kind: Seq<char>) -> bool {
    &&& kind == "signal"@ || kind == "power"@ || kind == "mixed"@
    &&& exists|stem: Seq<char>| name == #[trigger] (stem + ".Cu"@)
}

/// The entry at the place declares a copper layer of the given name.
pub open spec fn declares_copper(items: Seq<SexprV>, at: (int, int), name: Seq<char>) -> bool {
    exists|kind: Seq<char>| #[trigger] declares_layer(items, at.0, at.1, name, kind) && is_copper(
        name,
        kind,
    )
}

/// Place `p` of a file comes before place `q`.
pub open spec fn is_before(p: (int, int), q: (int, int)) -> bool {
    p.0 < q.0 || p.0 == q.0 && p.1 < q.1
}

/// The places list, each once and in file order, the entries that declare copper layers, and these
/// have the given names.
pub open spec fn lists_layers(
    items: Seq<SexprV>,
    at: Seq<(int, int)>,
    names: Seq<Seq<char>>,
) -> bool {
    &&& at.len() == names.len()
    &&& forall|x: int|
        0 <= x < at.len() ==> declares_copper(items, #[trigger] at[x], names[x])
    &&& forall|x: int, y: int|
        0 <= x < y < at.len() ==> is_before(#[trigger] at[x], #[trigger] at[y])
    &&& forall|j: int, k: int, name: Seq<char>, kind: Seq<char>| #[trigger]
        declares_layer(items, j, k, name, kind) && is_copper(name, kind) ==> at.contains((j, k))
}

/// The places list, each once and in file order, the entries of the sections below `n` (and, of the
/// section at `n`, those below `m`) that declare copper layers of the given names.
spec fn lists(items: Seq<SexprV>, n: int, m: int, at: Seq<(int, int)>, names: Seq<Seq<char>>) -> bool {
    &&& at.len() == names.len()
    &&& forall|x: int|
        0 <= x < at.len() ==> is_before(#[trigger] at[x], (n, m)) && declares_copper(
            items,
            at[x],
            names[x],
        )
    &&& forall|x: int, y: int|
        0 <= x < y < at.len() ==> is_before(#[trigger] at[x], #[trigger] at[y])
    &&& forall|j: int, k: int, name: Seq<char>, kind: Seq<char>|
        is_before((j, k), (n, m)) && #[trigger] declares_layer(items, j, k, name, kind)
            && is_copper(name, kind) ==> at.contains((j, k))
}

/// A text ends with another where it is some text and that one behind it.
pub proof fn ending_means_stem(s: Seq<char>, t: Seq<char>)
    ensures
        ends_in(s, t) <==> exists|stem: Seq<char>| s == #[trigger] (stem + t),
{
    if ends_in(s, t) {
        let stem = s.take(s.len() - t.len());
        assert(s =~= stem + t);
    }
    if exists|stem: Seq<char>| s == #[trigger] (stem + t) {
        let stem = choose|stem: Seq<char>| s == #[trigger] (stem + t);
        assert((stem + t).skip((stem + t).len() - t.len()) =~= t);
    }
}

proof fn entries_are_listed(
    items: Seq<SexprV>,
    j: int,
    m: int,
    at: Seq<(int, int)>,
    names: Seq<Seq<char>>,
) -> (r: Seq<(int, int)>)
    requires
        is_section(items, j, "layers"@),
        1 <= m <= items[j]->List_0.len(),
        lists(items, j, 1, at, names),
    ensures
        lists(items, j, m, r, names + copper_layers_of(items[j]->List_0, m)),
    decreases m,
{
    let c = items[j]->List_0;
    if m <= 1 {
        assert(names + copper_layers_of(c, m) =~= names);
        at
    } else {
        let front = entries_are_listed(items, j, m - 1, at, names);
        let k = m - 1;
        let old_names = names + copper_layers_of(c, k);
        let new_names = names + copper_layers_of(c, m);
        let found = copper_layer_of(c[k]);
        match found {
            Some(name) => {
                ending_means_stem(name, ".Cu"@);
                let r = front.push((j, k));
                assert(new_names =~= old_names.push(name));
                let kind = c[k]->List_0[2]->Atom_0.sym->0;
                assert(declares_layer(items, j, k, name, kind));
                assert forall|a: int, b: int, n2: Seq<char>, k2: Seq<char>|
                    is_before((a, b), (j, m)) && #[trigger] declares_layer(items, a, b, n2, k2)
                        && is_copper(n2, k2) implies r.contains((a, b)) by {
                    if a == j && b == k {
                        assert(r[r.len() - 1] == (j, k));
                    } else {
                        assert(front.contains((a, b)));
                        let x = choose|x: int| 0 <= x < front.len() && front[x] == (a, b);
                        assert(r[x] == (a, b));
                    }
                }
                assert(is_copper(name, kind));
                assert forall|x: int| 0 <= x < r.len() implies is_before(#[trigger] r[x], (j, m))
                    && declares_copper(items, r[x], new_names[x]) by {
                    if x < front.len() {
                        assert(r[x] == front[x]);
                        assert(new_names[x] == old_names[x]);
                    }
                }
                r
            },
            None => {
                assert(new_names =~= old_names);
                assert forall|a: int, b: int, n2: Seq<char>, k2: Seq<char>|
                    is_before((a, b), (j, m)) && #[trigger] declares_layer(items, a, b, n2, k2)
                        && is_copper(n2, k2) implies front.contains((a, b)) by {
                    if a == j && b == k {
                        ending_means_stem(n2, ".Cu"@);
                    }
                }
                front
            },
        }
    }
}

proof fn sections_are_listed(items: Seq<SexprV>, n: int) -> (r: Seq<(int, int)>)
    requires
        1 <= n <= items.len(),
    ensures
        lists(items, n, 1, r, board_of(items, n).copper_layers),
    decreases n,
{
    if n <= 1 {
        Seq::empty()
    } else {
        let j = n - 1;
        let front = sections_are_listed(items, j);
        let old_names = board_of(items, j).copper_layers;
        let new_names = board_of(items, n).copper_layers;
        assert(board_of(items, n) == with_node(board_of(items, j), items[j]));
        if is_section(items, j, "layers"@) {
            let c = items[j]->List_0;
            let r = entries_are_listed(items, j, c.len() as int, front, old_names);
            assert(new_names == old_names + copper_layers_of(c, c.len() as int));
            assert forall|a: int, b: int, n2: Seq<char>, k2: Seq<char>|
                is_before((a, b), (n, 1)) && #[trigger] declares_layer(items, a, b, n2, k2)
                    && is_copper(n2, k2) implies r.contains((a, b)) by {
                assert(is_before((a, b), (j, c.len() as int)));
            }
            r
        } else {
            assert(new_names == old_names);
            front
        }
    }
}

/// The copper layers of a board that was read are the names that end in `.Cu` among the layers that
/// its file declares as signal, power or mixed: each such entry gives one, none else does, and they
/// stand in file order.
pub proof fn copper_layers_are_those_declared(root: Sexpr, b: BoardModel)
    requires
        BoardModel::parse.ensures((&root,), Ok(b)),
    ensures
        root.value() is List,
        exists|at: Seq<(int, int)>| #[trigger]
            lists_layers(root.value()->List_0, at, b.copper_layers.deep_view()),
{
    let items = root.value()->List_0;
    let at = sections_are_listed(items, items.len() as int);
    let names = b.copper_layers.deep_view();
    assert(lists(items, items.len() as int, 1, at, names));
    assert forall|j: int, k: int, name: Seq<char>, kind: Seq<char>| #[trigger]
        declares_layer(items, j, k, name, kind) && is_copper(name, kind) implies at.contains(
        (j, k),
    ) by {
        assert(is_before((j, k), (items.len() as int, 1)));
    }
    assert forall|x: int| 0 <= x < at.len() implies declares_copper(
        items,
        #[trigger] at[x],
        names[x],
    ) by {
        assert(is_before(at[x], (items.len() as int, 1)));
    }
    assert(lists_layers(items, at, names));
}

} // verus!
