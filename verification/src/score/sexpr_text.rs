//! The text of symbolic expressions: the pieces that it is made of, and the tree that they make.
use vstd::prelude::*;

use crate::number::Real;
use crate::score::sexpr::{Atom, AtomV, Sexpr, SexprV};
use crate::steps::{failure_stays, take_all, take_one_more};
use crate::text::{chars_of, decimal, size_text};

verus! {

/// `String::push` of the standard library: appends the character to the text.
pub assume_specification[ String::push ](s: &mut String, c: char)
    ensures
        final(s)@ == old(s)@.push(c),
;

/// A piece of the text.
pub enum Piece {
    Open,
    Close,
    Word(String),
    Quoted(String),
}

/// The value of a `Piece`.
#[verifier::ext_equal]
pub enum PieceV {
    Open,
    Close,
    Word(Seq<char>),
    Quoted(Seq<char>),
}

impl DeepView for Piece {
    type V = PieceV;

    open spec fn deep_view(&self) -> PieceV {
        match self {
            Piece::Open => PieceV::Open,
            Piece::Close => PieceV::Close,
            Piece::Word(w) => PieceV::Word(w@),
            Piece::Quoted(t) => PieceV::Quoted(t@),
        }
    }
}

/// The character parts pieces and means nothing itself.
pub open spec fn parts(c: char) -> bool {
    c == ' ' || c == '\t' || c == '\n' || c == '\r'
}

/// The character is in no word.
pub open spec fn ends_word(c: char) -> bool {
    parts(c) || c == '(' || c == ')' || c == '"'
}

/// The place behind the word that holds place `i`.
pub open spec fn word_end(s: Seq<char>, i: int) -> int
    decreases s.len() - i,
{
    if i >= s.len() || ends_word(s[i]) {
        i
    } else {
        word_end(s, i + 1)
    }
}

/// What a character behind a backslash stands for.
pub open spec fn unescaped(c: char) -> char {
    if c == 'n' {
        '\n'
    } else if c == 't' {
        '\t'
    } else if c == 'r' {
        '\r'
    } else {
        c
    }
}

/// The quoted text from place `i` up to its closing quote, and the place behind that quote.
pub open spec fn quoted_from(s: Seq<char>, i: int) -> Option<(Seq<char>, int)>
    decreases s.len() - i,
{
    if i >= s.len() {
        None
    } else if s[i] == '"' {
        Some((Seq::empty(), i + 1))
    } else if s[i] == '\\' {
        if i + 1 >= s.len() {
            None
        } else {
            match quoted_from(s, i + 2) {
                Some((t, e)) => Some((seq![unescaped(s[i + 1])] + t, e)),
                None => None,
            }
        }
    } else {
        match quoted_from(s, i + 1) {
            Some((t, e)) => Some((seq![s[i]] + t, e)),
            None => None,
        }
    }
}

/// A word ends behind its first character, within the text.
pub proof fn word_moves(s: Seq<char>, i: int)
    requires
        0 <= i,
    ensures
        i <= word_end(s, i),
        i <= s.len() ==> word_end(s, i) <= s.len(),
        i < s.len() && !ends_word(s[i]) ==> i < word_end(s, i),
    decreases s.len() - i,
{
    if i < s.len() && !ends_word(s[i]) {
        word_moves(s, i + 1);
    }
}

/// A quoted text ends behind its opening quote, within the text.
pub proof fn quote_moves(s: Seq<char>, i: int)
    requires
        0 <= i,
    ensures
        quoted_from(s, i) matches Some(q) ==> i < q.1 <= s.len(),
    decreases s.len() - i,
{
    if i < s.len() && s[i] != '"' {
        if s[i] == '\\' {
            if i + 1 < s.len() {
                quote_moves(s, i + 2);
            }
        } else {
            quote_moves(s, i + 1);
        }
    }
}

/// The pieces with one in front.
pub open spec fn led_by(p: PieceV, rest: Option<Seq<PieceV>>) -> Option<Seq<PieceV>> {
    match rest {
        Some(r) => Some(seq![p] + r),
        None => None,
    }
}

/// The pieces of the text from place `i`; nothing where a quoted text does not end.
pub open spec fn pieces_from(s: Seq<char>, i: int) -> Option<Seq<PieceV>>
    decreases s.len() - i,
{
    if i < 0 || i >= s.len() {
        Some(Seq::empty())
    } else if parts(s[i]) {
        pieces_from(s, i + 1)
    } else if s[i] == '(' {
        led_by(PieceV::Open, pieces_from(s, i + 1))
    } else if s[i] == ')' {
        led_by(PieceV::Close, pieces_from(s, i + 1))
    } else if s[i] == '"' {
        proof {
            quote_moves(s, i + 1);
        }
        match quoted_from(s, i + 1) {
            Some((t, e)) => led_by(PieceV::Quoted(t), pieces_from(s, e)),
            None => None,
        }
    } else {
        proof {
            word_moves(s, i);
        }
        led_by(PieceV::Word(s.subrange(i, word_end(s, i))), pieces_from(s, word_end(s, i)))
    }
}

fn read_word(chars: &Vec<char>, from: usize) -> (r: (String, usize))
    requires
        from < chars@.len(),
        !ends_word(chars@[from as int]),
    ensures
        r.1 == word_end(chars@, from as int),
        r.0@ == chars@.subrange(from as int, r.1 as int),
        from < r.1 <= chars@.len(),
{
    let n: usize = chars.len();
    let mut w = String::new();
    let mut j: usize = from;
    proof {
        word_moves(chars@, from as int);
    }
    while j < n && !(chars[j] == ' ' || chars[j] == '\t' || chars[j] == '\n' || chars[j] == '\r'
        || chars[j] == '(' || chars[j] == ')' || chars[j] == '"')
        invariant
            n == chars@.len(),
            from <= j <= n,
            w@ == chars@.subrange(from as int, j as int),
            word_end(chars@, from as int) == word_end(chars@, j as int),
        decreases n - j,
    {
        w.push(chars[j]);
        assert(chars@.subrange(from as int, j + 1) =~= chars@.subrange(
            from as int,
            j as int,
        ).push(chars@[j as int]));
        j += 1;
    }
    (w, j)
}

fn read_quoted(chars: &Vec<char>, from: usize) -> (r: Option<(String, usize)>)
    requires
        from <= chars@.len(),
    ensures
        match r {
            Some((t, e)) => quoted_from(chars@, from as int) == Some((t@, e as int)),
            None => quoted_from(chars@, from as int) is None,
        },
{
    let n: usize = chars.len();
    let mut w = String::new();
    let mut j: usize = from;
    assert(match quoted_from(chars@, from as int) {
        Some((t, e)) => w@ + t == t,
        None => true,
    });
    while j < n
        invariant
            n == chars@.len(),
            from <= j <= n,
            match quoted_from(chars@, j as int) {
                Some((t, e)) => quoted_from(chars@, from as int) == Some((w@ + t, e)),
                None => quoted_from(chars@, from as int) is None,
            },
        decreases n - j,
    {
        let c: char = chars[j];
        let ghost before = w@;
        if c == '"' {
            assert(w@ + Seq::<char>::empty() =~= w@);
            return Some((w, j + 1));
        }
        if c == '\\' {
            if j + 1 >= n {
                return None;
            }
            let d: char = chars[j + 1];
            let plain: char = if d == 'n' {
                '\n'
            } else if d == 't' {
                '\t'
            } else if d == 'r' {
                '\r'
            } else {
                d
            };
            w.push(plain);
            proof {
                if let Some((t, e)) = quoted_from(chars@, j + 2) {
                    assert(before + (seq![unescaped(d)] + t) =~= w@ + t);
                }
            }
            j += 2;
        } else {
            w.push(c);
            proof {
                if let Some((t, e)) = quoted_from(chars@, j + 1) {
                    assert(before + (seq![c] + t) =~= w@ + t);
                }
            }
            j += 1;
        }
    }
    None
}

/// The pieces behind those that are there.
pub open spec fn followed_by(front: Seq<PieceV>, rest: Option<Seq<PieceV>>) -> Option<Seq<PieceV>> {
    match rest {
        Some(r) => Some(front + r),
        None => None,
    }
}

proof fn one_follows(front: Seq<PieceV>, p: PieceV, rest: Option<Seq<PieceV>>)
    ensures
        followed_by(front, led_by(p, rest)) == followed_by(front.push(p), rest),
{
    if let Some(r) = rest {
        assert(front + (seq![p] + r) =~= front.push(p) + r);
    }
}

/// The pieces of a text; nothing where a quoted text does not end.
pub fn split_pieces(source: &str) -> (r: Option<Vec<Piece>>)
    ensures
        match r {
            Some(p) => pieces_from(source@, 0) == Some(p.deep_view()),
            None => pieces_from(source@, 0) is None,
        },
{
    let chars = chars_of(source);
    let ghost s = source@;
    let n: usize = chars.len();
    let mut out: Vec<Piece> = Vec::new();
    let mut i: usize = 0;
    proof {
        assert(out.deep_view() =~= Seq::empty());
        if let Some(p) = pieces_from(s, 0) {
            assert(out.deep_view() + p =~= p);
        }
    }
    while i < n
        invariant
            n == chars@.len(),
            s == source@,
            chars@ == s,
            i <= n,
            followed_by(out.deep_view(), pieces_from(s, i as int)) == pieces_from(s, 0),
        decreases n - i,
    {
        let c: char = chars[i];
        let ghost before = out.deep_view();
        if c == ' ' || c == '\t' || c == '\n' || c == '\r' {
            i += 1;
        } else if c == '(' {
            proof {
                one_follows(before, PieceV::Open, pieces_from(s, i + 1));
            }
            out.push(Piece::Open);
            assert(out.deep_view() =~= before.push(PieceV::Open));
            i += 1;
        } else if c == ')' {
            proof {
                one_follows(before, PieceV::Close, pieces_from(s, i + 1));
            }
            out.push(Piece::Close);
            assert(out.deep_view() =~= before.push(PieceV::Close));
            i += 1;
        } else if c == '"' {
            proof {
                quote_moves(s, i + 1);
            }
            match read_quoted(&chars, i + 1) {
                Some((t, e)) => {
                    let ghost tv = t@;
                    proof {
                        one_follows(before, PieceV::Quoted(tv), pieces_from(s, e as int));
                    }
                    out.push(Piece::Quoted(t));
                    assert(out.deep_view() =~= before.push(PieceV::Quoted(tv)));
                    i = e;
                },
                None => {
                    return None;
                },
            }
        } else {
            let (w, e) = read_word(&chars, i);
            let ghost wv = w@;
            proof {
                one_follows(before, PieceV::Word(wv), pieces_from(s, e as int));
            }
            out.push(Piece::Word(w));
            assert(out.deep_view() =~= before.push(PieceV::Word(wv)));
            i = e;
        }
    }
    assert(out.deep_view() + Seq::<PieceV>::empty() =~= out.deep_view());
    Some(out)
}

/// The number that decimal digits spell.
pub open spec fn digits_value(s: Seq<char>) -> int
    decreases s.len(),
{
    if s.len() == 0 {
        0
    } else {
        10 * digits_value(s.drop_last()) + (s.last() as int - '0' as int)
    }
}

/// The text is made of decimal digits, at least one.
pub open spec fn is_digits(s: Seq<char>) -> bool {
    s.len() > 0 && forall|i: int| 0 <= i < s.len() ==> '0' <= #[trigger] s[i] <= '9'
}

/// The text has a sign.
pub open spec fn is_signed(s: Seq<char>) -> bool {
    s.len() > 0 && (s[0] == '-' || s[0] == '+')
}

/// The whole number of 64 bits that the text spells.
pub open spec fn whole_number(s: Seq<char>) -> Option<i64> {
    let digits = if is_signed(s) {
        s.skip(1)
    } else {
        s
    };
    let v = if s.len() > 0 && s[0] == '-' {
        -digits_value(digits)
    } else {
        digits_value(digits)
    };
    if is_digits(digits) && i64::MIN <= v <= i64::MAX {
        Some(v as i64)
    } else {
        None
    }
}

proof fn more_digits_are_more(s: Seq<char>, k: int)
    requires
        0 <= k <= s.len(),
        forall|i: int| 0 <= i < s.len() ==> '0' <= #[trigger] s[i] <= '9',
    ensures
        0 <= digits_value(s.take(k)) <= digits_value(s),
    decreases s.len(),
{
    if s.len() > 0 {
        let front = s.drop_last();
        assert forall|i: int| 0 <= i < front.len() implies '0' <= #[trigger] front[i] <= '9' by {
            assert(front[i] == s[i]);
        }
        assert('0' <= s[s.len() - 1] <= '9');
        if k < s.len() {
            assert(s.take(k) =~= front.take(k));
            more_digits_are_more(front, k);
        } else {
            assert(s.take(k) =~= s);
            assert(front.take(front.len() as int) =~= front);
            more_digits_are_more(front, front.len() as int);
        }
    }
}

/// The whole number of 64 bits that the text spells.
pub fn read_whole(text: &str) -> (r: Option<i64>)
    ensures
        r == whole_number(text@),
{
    let chars = chars_of(text);
    let n: usize = chars.len();
    let ghost s = text@;
    let signed: bool = n > 0 && (chars[0] == '-' || chars[0] == '+');
    let minus: bool = n > 0 && chars[0] == '-';
    let from: usize = if signed {
        1
    } else {
        0
    };
    let ghost digits = if signed {
        s.skip(1)
    } else {
        s
    };
    if from >= n {
        return None;
    }
    let mut acc: i128 = 0;
    let mut i: usize = from;
    assert(digits.take(0) =~= Seq::empty());
    while i < n
        invariant
            n == chars@.len(),
            chars@ == s,
            from <= i <= n,
            from <= 1,
            signed == is_signed(s),
            from == (if signed {
                1int
            } else {
                0
            }),
            digits == (if is_signed(s) {
                s.skip(1)
            } else {
                s
            }),
            minus == (s.len() > 0 && s[0] == '-'),
            forall|k: int| 0 <= k < i - from ==> '0' <= #[trigger] digits[k] <= '9',
            acc == digits_value(digits.take(i - from)),
            0 <= acc <= 0x8000_0000_0000_0000,
            s == text@,
        decreases n - i,
    {
        let c: char = chars[i];
        assert(digits[i - from] == c);
        if c < '0' || c > '9' {
            return None;
        }
        let d: i128 = (c as u32 - '0' as u32) as i128;
        assert(digits.take(i - from + 1).drop_last() =~= digits.take(i - from));
        acc = acc * 10 + d;
        if acc > 0x8000_0000_0000_0000 {
            proof {
                if is_digits(digits) {
                    more_digits_are_more(digits, i - from + 1);
                }
            }
            return None;
        }
        i += 1;
    }
    assert(digits.take(n - from) =~= digits);
    assert(is_digits(digits));
    let v: i128 = if minus {
        -acc
    } else {
        acc
    };
    if v > 0x7fff_ffff_ffff_ffff {
        return None;
    }
    Some(v as i64)
}

/// A mark of a tree: where a list begins or ends, or an atom.
#[verifier::ext_equal]
pub enum MarkV {
    Open,
    Close,
    Leaf(AtomV),
}

/// The text has a digit in it.
pub open spec fn has_digit(s: Seq<char>) -> bool {
    exists|i: int| 0 <= i < s.len() && '0' <= (#[trigger] s[i]) <= '9'
}

/// What a piece is to the tree, given the number that it is or spells. A word of digits that is a
/// number is no symbol; one without a digit is a symbol, though it may spell a number.
pub open spec fn mark_of(p: PieceV, number: Option<Real>) -> MarkV {
    match p {
        PieceV::Open => MarkV::Open,
        PieceV::Close => MarkV::Close,
        PieceV::Word(w) => MarkV::Leaf(
            if number is Some && has_digit(w) {
                AtomV { sym: None, text: None, int: whole_number(w), number }
            } else {
                AtomV { sym: Some(w), text: Some(w), int: None, number }
            },
        ),
        PieceV::Quoted(t) => MarkV::Leaf(AtomV { sym: None, text: Some(t), int: None, number }),
    }
}

/// The marks of the pieces.
pub open spec fn marks_of(pieces: Seq<PieceV>, numbers: Seq<Option<Real>>) -> Seq<MarkV> {
    Seq::new(pieces.len(), |i: int| mark_of(pieces[i], numbers[i]))
}

/// The open lists with one more expression in the innermost.
pub open spec fn with_item(open: Seq<Seq<SexprV>>, v: SexprV) -> Seq<Seq<SexprV>> {
    open.drop_last().push(open.last().push(v))
}

/// A parenthesis has no counterpart.
pub open spec fn unbalanced() -> Seq<char> {
    "unbalanced parenthesis"@
}

/// Takes one mark. The state is the lists that are open, the innermost last.
pub open spec fn tree_step() -> spec_fn(Seq<Seq<SexprV>>, MarkV) -> Result<
    Seq<Seq<SexprV>>,
    Seq<char>,
> {
    |open: Seq<Seq<SexprV>>, m: MarkV|
        match m {
            MarkV::Open => Ok(open.push(Seq::empty())),
            MarkV::Close => if open.len() < 2 {
                Err(unbalanced())
            } else {
                Ok(with_item(open.drop_last(), SexprV::List(open.last())))
            },
            MarkV::Leaf(a) => Ok(with_item(open, SexprV::Atom(a))),
        }
}

/// The state before the first mark: the level above all expressions.
pub open spec fn top_level() -> Seq<Seq<SexprV>> {
    seq![Seq::<SexprV>::empty()]
}

/// The one expression that the marks make.
pub open spec fn tree_of(marks: Seq<MarkV>) -> Result<SexprV, Seq<char>> {
    match take_all(marks, top_level(), tree_step()) {
        Err(e) => Err(e),
        Ok(open) => if open.len() != 1 {
            Err(unbalanced())
        } else if open[0].len() != 1 {
            Err("expected one expression, found "@ + decimal(open[0].len()))
        } else {
            Ok(open[0][0])
        },
    }
}

fn find_digit(s: &str) -> (r: bool)
    ensures
        r == has_digit(s@),
{
    let chars = chars_of(s);
    let n: usize = chars.len();
    let mut i: usize = 0;
    while i < n
        invariant
            n == chars@.len(),
            chars@ == s@,
            i <= n,
            forall|j: int| 0 <= j < i ==> !('0' <= (#[trigger] s@[j]) <= '9'),
        decreases n - i,
    {
        let c: char = chars[i];
        if '0' <= c && c <= '9' {
            assert('0' <= s@[i as int] <= '9');
            return true;
        }
        i += 1;
    }
    false
}

fn make_atom(p: &Piece, number: Option<Real>) -> (r: Option<Atom>)
    ensures
        match r {
            Some(a) => mark_of(p.deep_view(), number) == MarkV::Leaf(a.deep_view()),
            None => p.deep_view() is Open || p.deep_view() is Close,
        },
{
    match p {
        Piece::Word(w) => if number.is_some() && find_digit(w.as_str()) {
            let a = Atom { sym: None, text: None, int: read_whole(w.as_str()), number };
            assert(a.deep_view() =~= AtomV { sym: None, text: None, int: whole_number(w@), number });
            Some(a)
        } else {
            let a = Atom { sym: Some(w.clone()), text: Some(w.clone()), int: None, number };
            assert(a.deep_view() =~= AtomV { sym: Some(w@), text: Some(w@), int: None, number });
            Some(a)
        },
        Piece::Quoted(t) => {
            let a = Atom { sym: None, text: Some(t.clone()), int: None, number };
            assert(a.deep_view() =~= AtomV { sym: None, text: Some(t@), int: None, number });
            Some(a)
        },
        _ => None,
    }
}

/// The one expression that the pieces make. For each piece there is the number that it is or
/// spells.
pub fn read_tree(pieces: &Vec<Piece>, numbers: &Vec<Option<Real>>) -> (r: Result<Sexpr, String>)
    requires
        pieces@.len() == numbers@.len(),
    ensures
        match r {
            Ok(v) => tree_of(marks_of(pieces.deep_view(), numbers@)) == Ok::<_, Seq<char>>(
                v.value(),
            ),
            Err(e) => tree_of(marks_of(pieces.deep_view(), numbers@)) == Err::<SexprV, _>(e@),
        },
{
    let ghost marks = marks_of(pieces.deep_view(), numbers@);
    let n: usize = pieces.len();
    let mut open: Vec<Vec<Sexpr>> = Vec::new();
    let first: Vec<Sexpr> = Vec::new();
    assert(first.deep_view() =~= Seq::empty());
    open.push(first);
    assert(open.deep_view() =~= top_level());
    let mut i: usize = 0;
    assert(marks.take(0) =~= Seq::empty());
    while i < n
        invariant
            n == pieces@.len(),
            n == numbers@.len(),
            marks == marks_of(pieces.deep_view(), numbers@),
            i <= n,
            open@.len() >= 1,
            take_all(marks.take(i as int), top_level(), tree_step()) == Ok::<_, Seq<char>>(
                open.deep_view(),
            ),
        decreases n - i,
    {
        let ghost before = open.deep_view();
        proof {
            take_one_more(marks, top_level(), tree_step(), i as int);
        }
        assert(marks[i as int] == mark_of(pieces@[i as int].deep_view(), numbers@[i as int]));
        match make_atom(&pieces[i], numbers[i]) {
            Some(a) => {
                let ghost av = a.deep_view();
                match open.pop() {
                    Some(mut top) => {
                        let ghost tv = top.deep_view();
                        assert(open.deep_view() =~= before.drop_last());
                        assert(tv == before.last());
                        top.push(Sexpr::Atom(a));
                        assert(top.deep_view() =~= tv.push(SexprV::Atom(av)));
                        let ghost now = top.deep_view();
                        open.push(top);
                        assert(open.deep_view() =~= before.drop_last().push(now));
                        assert(open.deep_view() == with_item(before, SexprV::Atom(av)));
                    },
                    None => {},
                }
            },
            None => match &pieces[i] {
                Piece::Open => {
                    let inner: Vec<Sexpr> = Vec::new();
                    assert(inner.deep_view() =~= Seq::empty());
                    open.push(inner);
                    assert(open.deep_view() =~= before.push(Seq::empty()));
                },
                _ => {
                    if open.len() < 2 {
                        proof {
                            failure_stays(marks, top_level(), tree_step(), i + 1);
                        }
                        return Err("unbalanced parenthesis".to_string());
                    }
                    match open.pop() {
                        Some(inner) => {
                            let ghost iv = inner.deep_view();
                            assert(open.deep_view() =~= before.drop_last());
                            match open.pop() {
                                Some(mut top) => {
                                    let ghost under = before.drop_last();
                                    let ghost tv = top.deep_view();
                                    assert(open.deep_view() =~= under.drop_last());
                                    assert(tv == under.last());
                                    let list = Sexpr::List(inner);
                                    assert(list.value() == SexprV::List(iv)) by {
                                        assert(list.value()->List_0 =~= iv);
                                    }
                                    top.push(list);
                                    assert(top.deep_view() =~= tv.push(SexprV::List(iv)));
                                    let ghost now = top.deep_view();
                                    open.push(top);
                                    assert(open.deep_view() =~= under.drop_last().push(now));
                                },
                                None => {},
                            }
                        },
                        None => {},
                    }
                },
            },
        }
        i += 1;
    }
    assert(marks.take(n as int) =~= marks);
    if open.len() != 1 {
        return Err("unbalanced parenthesis".to_string());
    }
    match open.pop() {
        Some(mut top) => {
            assert(top.deep_view() == take_all(marks, top_level(), tree_step())->Ok_0[0]);
            if top.len() != 1 {
                return Err(
                    "expected one expression, found ".to_string().concat(
                        size_text(top.len()).as_str(),
                    ),
                );
            }
            assert(top.deep_view()[0] == top@[0].value());
            match top.pop() {
                Some(v) => Ok(v),
                None => Err("unbalanced parenthesis".to_string()),
            }
        },
        None => Err("unbalanced parenthesis".to_string()),
    }
}

/// The marks that an expression is written with.
pub open spec fn written(v: SexprV) -> Seq<MarkV>
    decreases v, 1int,
{
    match v {
        SexprV::Atom(a) => seq![MarkV::Leaf(a)],
        SexprV::List(items) => seq![MarkV::Open] + all_written(items) + seq![MarkV::Close],
    }
}

/// The marks that expressions are written with, one behind the other.
pub open spec fn all_written(items: Seq<SexprV>) -> Seq<MarkV>
    decreases items, 0int,
{
    if items.len() == 0 {
        Seq::empty()
    } else {
        all_written(items.drop_last()) + written(items.last())
    }
}

proof fn one_mark_more(front: Seq<MarkV>, m: MarkV)
    ensures
        take_all(front.push(m), top_level(), tree_step()) == match take_all(
            front,
            top_level(),
            tree_step(),
        ) {
            Err(e) => Err(e),
            Ok(open) => tree_step()(open, m),
        },
{
    assert(front.push(m).drop_last() =~= front);
}

proof fn an_item_is_read(front: Seq<MarkV>, open: Seq<Seq<SexprV>>, v: SexprV)
    requires
        take_all(front, top_level(), tree_step()) == Ok::<_, Seq<char>>(open),
        open.len() > 0,
    ensures
        take_all(front + written(v), top_level(), tree_step()) == Ok::<_, Seq<char>>(
            with_item(open, v),
        ),
    decreases v, 1int,
{
    match v {
        SexprV::Atom(a) => {
            one_mark_more(front, MarkV::Leaf(a));
            assert(front + written(v) =~= front.push(MarkV::Leaf(a)));
        },
        SexprV::List(items) => {
            let begun = front.push(MarkV::Open);
            one_mark_more(front, MarkV::Open);
            let inside = open.push(Seq::empty());
            items_are_read(begun, inside, items);
            let full = begun + all_written(items);
            let after = inside.drop_last().push(inside.last() + items);
            assert(inside.last() + items =~= items);
            assert(inside.drop_last() =~= open);
            assert(after =~= open.push(items));
            one_mark_more(full, MarkV::Close);
            assert(front + written(v) =~= full.push(MarkV::Close));
            assert(after.drop_last() =~= open);
        },
    }
}

proof fn items_are_read(front: Seq<MarkV>, open: Seq<Seq<SexprV>>, items: Seq<SexprV>)
    requires
        take_all(front, top_level(), tree_step()) == Ok::<_, Seq<char>>(open),
        open.len() > 0,
    ensures
        take_all(front + all_written(items), top_level(), tree_step()) == Ok::<_, Seq<char>>(
            open.drop_last().push(open.last() + items),
        ),
    decreases items, 0int,
{
    if items.len() == 0 {
        assert(front + all_written(items) =~= front);
        assert(open.last() + items =~= open.last());
        assert(open.drop_last().push(open.last()) =~= open);
    } else {
        let some = items.drop_last();
        items_are_read(front, open, some);
        let now = open.drop_last().push(open.last() + some);
        an_item_is_read(front + all_written(some), now, items.last());
        assert(front + all_written(some) + written(items.last()) =~= front + all_written(items));
        assert(now.drop_last() =~= open.drop_last());
        assert(now.last().push(items.last()) =~= open.last() + items);
    }
}

/// What is written is read back: the marks of an expression make that expression.
pub proof fn trees_are_read_back(v: SexprV)
    ensures
        tree_of(written(v)) == Ok::<_, Seq<char>>(v),
{
    an_item_is_read(Seq::empty(), top_level(), v);
    assert(Seq::<MarkV>::empty() + written(v) =~= written(v));
    assert(with_item(top_level(), v) =~= seq![seq![v]]) by {
        assert(top_level().last().push(v) =~= seq![v]);
    }
}

} // verus!
