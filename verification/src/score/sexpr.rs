//! Symbolic expressions, as far as a board file needs them.
use vstd::prelude::*;

use crate::number::Real;
use crate::text::same;

verus! {

/// An atom, by what it can be read as.
pub struct Atom {
    /// The symbol, where it is one.
    pub sym: Option<String>,
    /// The text, where it is a symbol or a text.
    pub text: Option<String>,
    /// The whole number, where it is one.
    pub int: Option<i64>,
    /// The number that it is or spells.
    pub number: Option<Real>,
}

/// The value of an `Atom`.
#[verifier::ext_equal]
pub struct AtomV {
    pub sym: Option<Seq<char>>,
    pub text: Option<Seq<char>>,
    pub int: Option<i64>,
    pub number: Option<Real>,
}

impl DeepView for Atom {
    type V = AtomV;

    open spec fn deep_view(&self) -> AtomV {
        AtomV {
            sym: self.sym.deep_view(),
            text: self.text.deep_view(),
            int: self.int,
            number: self.number,
        }
    }
}

/// A symbolic expression.
pub enum Sexpr {
    Atom(Atom),
    List(Vec<Sexpr>),
}

/// The value of a `Sexpr`.
pub enum SexprV {
    Atom(AtomV),
    List(Seq<SexprV>),
}

impl Sexpr {
    pub open spec fn value(self) -> SexprV
        decreases self,
    {
        match self {
            Sexpr::Atom(a) => SexprV::Atom(a.deep_view()),
            Sexpr::List(items) => SexprV::List(
                Seq::new(
                    items@.len(),
                    |i: int|
                        if 0 <= i < items@.len() {
                            items@[i].value()
                        } else {
                            SexprV::List(Seq::empty())
                        },
                ),
            ),
        }
    }
}

impl DeepView for Sexpr {
    type V = SexprV;

    open spec fn deep_view(&self) -> SexprV {
        self.value()
    }
}

/// The items of a list.
pub open spec fn list_of(v: SexprV) -> Option<Seq<SexprV>> {
    match v {
        SexprV::List(items) => Some(items),
        _ => None,
    }
}

/// The symbol that the expression is.
pub open spec fn sym_of(v: SexprV) -> Option<Seq<char>> {
    match v {
        SexprV::Atom(a) => a.sym,
        _ => None,
    }
}

/// The text that the expression is.
pub open spec fn text_of(v: SexprV) -> Option<Seq<char>> {
    match v {
        SexprV::Atom(a) => a.text,
        _ => None,
    }
}

/// The whole number that the expression is.
pub open spec fn int_of(v: SexprV) -> Option<i64> {
    match v {
        SexprV::Atom(a) => a.int,
        _ => None,
    }
}

/// The number that the expression is or spells.
pub open spec fn number_of(v: SexprV) -> Option<Real> {
    match v {
        SexprV::Atom(a) => a.number,
        _ => None,
    }
}

/// The symbol at a place of a list.
pub open spec fn sym_at(items: Seq<SexprV>, k: int) -> Option<Seq<char>> {
    if 0 <= k < items.len() {
        sym_of(items[k])
    } else {
        None
    }
}

/// The text at a place of a list.
pub open spec fn text_at(items: Seq<SexprV>, k: int) -> Option<Seq<char>> {
    if 0 <= k < items.len() {
        text_of(items[k])
    } else {
        None
    }
}

/// The whole number at a place of a list.
pub open spec fn int_at(items: Seq<SexprV>, k: int) -> Option<i64> {
    if 0 <= k < items.len() {
        int_of(items[k])
    } else {
        None
    }
}

/// The number at a place of a list.
pub open spec fn number_at(items: Seq<SexprV>, k: int) -> Option<Real> {
    if 0 <= k < items.len() {
        number_of(items[k])
    } else {
        None
    }
}

/// The first list among the items that starts with the given symbol.
pub open spec fn child_list(items: Seq<SexprV>, name: Seq<char>) -> Option<Seq<SexprV>>
    decreases items.len(),
{
    if items.len() == 0 {
        None
    } else {
        match list_of(items[0]) {
            Some(fields) => if sym_at(fields, 0) == Some(name) {
                Some(fields)
            } else {
                child_list(items.drop_first(), name)
            },
            None => child_list(items.drop_first(), name),
        }
    }
}

/// The items of a list are its contents.
pub proof fn contents_are_expressions(v: Sexpr)
    ensures
        v matches Sexpr::List(a) ==> v.value() == SexprV::List(a.deep_view()),
{
    match v {
        Sexpr::List(a) => {
            assert(v.value()->List_0 =~= a.deep_view());
        },
        _ => {},
    }
}

impl Sexpr {
    /// The items, where the expression is a list.
    pub fn as_list(&self) -> (r: Option<&Vec<Sexpr>>)
        ensures
            match r {
                Some(a) => list_of(self.value()) == Some(a.deep_view()),
                None => list_of(self.value()) is None,
            },
    {
        proof {
            contents_are_expressions(*self);
        }
        match self {
            Sexpr::List(a) => Some(a),
            _ => None,
        }
    }

    /// The symbol, where the expression is one.
    pub fn as_sym(&self) -> (r: Option<&String>)
        ensures
            match r {
                Some(s) => sym_of(self.value()) == Some(s@),
                None => sym_of(self.value()) is None,
            },
    {
        match self {
            Sexpr::Atom(a) => match &a.sym {
                Some(s) => Some(s),
                None => None,
            },
            _ => None,
        }
    }

    /// The text, where the expression is a symbol or a text.
    pub fn as_text(&self) -> (r: Option<&String>)
        ensures
            match r {
                Some(s) => text_of(self.value()) == Some(s@),
                None => text_of(self.value()) is None,
            },
    {
        match self {
            Sexpr::Atom(a) => match &a.text {
                Some(s) => Some(s),
                None => None,
            },
            _ => None,
        }
    }

    /// The number that the expression is or spells.
    pub fn as_number(&self) -> (r: Option<Real>)
        ensures
            r == number_of(self.value()),
    {
        match self {
            Sexpr::Atom(a) => a.number,
            _ => None,
        }
    }
}

/// The symbol at a place of a list.
pub fn get_sym(items: &Vec<Sexpr>, k: usize) -> (r: Option<&String>)
    ensures
        match r {
            Some(s) => sym_at(items.deep_view(), k as int) == Some(s@),
            None => sym_at(items.deep_view(), k as int) is None,
        },
{
    if k < items.len() {
        items[k].as_sym()
    } else {
        None
    }
}

/// Whether the symbol at a place of a list is the given one.
pub fn sym_is(items: &Vec<Sexpr>, k: usize, name: &str) -> (r: bool)
    ensures
        r == (sym_at(items.deep_view(), k as int) == Some(name@)),
{
    match get_sym(items, k) {
        Some(s) => same(s.as_str(), name),
        None => false,
    }
}

/// The text at a place of a list.
pub fn get_text(items: &Vec<Sexpr>, k: usize) -> (r: Option<&String>)
    ensures
        match r {
            Some(s) => text_at(items.deep_view(), k as int) == Some(s@),
            None => text_at(items.deep_view(), k as int) is None,
        },
{
    if k < items.len() {
        items[k].as_text()
    } else {
        None
    }
}

/// The whole number at a place of a list.
pub fn get_int(items: &Vec<Sexpr>, k: usize) -> (r: Option<i64>)
    ensures
        r == int_at(items.deep_view(), k as int),
{
    if k < items.len() {
        match &items[k] {
            Sexpr::Atom(a) => a.int,
            _ => None,
        }
    } else {
        None
    }
}

/// The number at a place of a list.
pub fn get_number(items: &Vec<Sexpr>, k: usize) -> (r: Option<Real>)
    ensures
        r == number_at(items.deep_view(), k as int),
{
    if k < items.len() {
        items[k].as_number()
    } else {
        None
    }
}

/// The first list among the items that starts with the given symbol.
pub fn find_child_list<'a>(items: &'a Vec<Sexpr>, name: &str) -> (r: Option<&'a Vec<Sexpr>>)
    ensures
        match r {
            Some(a) => child_list(items.deep_view(), name@) == Some(a.deep_view()),
            None => child_list(items.deep_view(), name@) is None,
        },
{
    let ghost all = items.deep_view();
    let n: usize = items.len();
    let mut i: usize = 0;
    assert(all.skip(0) =~= all);
    while i < n
        invariant
            n == items@.len(),
            all == items.deep_view(),
            i <= n,
            child_list(all, name@) == child_list(all.skip(i as int), name@),
        decreases n - i,
    {
        assert(all.skip(i as int).drop_first() =~= all.skip(i + 1));
        assert(all.skip(i as int)[0] == items@[i as int].value());
        match items[i].as_list() {
            Some(fields) => {
                if sym_is(fields, 0, name) {
                    return Some(fields);
                }
            },
            None => {},
        }
        i += 1;
    }
    None
}

} // verus!
