//! Pieces of text written out, and that they are read back as they were; whole numbers in digits.
use vstd::prelude::*;

use crate::score::sexpr_text::{
    digits_value, is_digits, is_signed, pieces_from, quoted_from, whole_number, word_end, PieceV,
};

verus! {

/// A character inside quotes.
pub open spec fn escaped_char(c: char) -> Seq<char> {
    if c == '\n' {
        seq!['\\', 'n']
    } else if c == '\t' {
        seq!['\\', 't']
    } else if c == '\r' {
        seq!['\\', 'r']
    } else if c == '"' || c == '\\' {
        seq!['\\', c]
    } else {
        seq![c]
    }
}

/// A text inside quotes.
pub open spec fn escaped(t: Seq<char>) -> Seq<char>
    decreases t.len(),
{
    if t.len() == 0 {
        Seq::empty()
    } else {
        escaped_char(t[0]) + escaped(t.drop_first())
    }
}

/// A piece written out; a word with a blank behind it.
pub open spec fn piece_text(p: PieceV) -> Seq<char> {
    match p {
        PieceV::Open => seq!['('],
        PieceV::Close => seq![')'],
        PieceV::Word(w) => w + seq![' '],
        PieceV::Quoted(t) => seq!['"'] + escaped(t) + seq!['"'],
    }
}

/// The pieces written out one behind the other.
pub open spec fn pieces_text(ps: Seq<PieceV>) -> Seq<char>
    decreases ps.len(),
{
    if ps.len() == 0 {
        Seq::empty()
    } else {
        piece_text(ps[0]) + pieces_text(ps.drop_first())
    }
}

/// A word has characters, and none that is blank, a parenthesis or a quote.
pub open spec fn is_word(w: Seq<char>) -> bool {
    &&& w.len() > 0
    &&& forall|i: int|
        0 <= i < w.len() ==> {
            let c = #[trigger] w[i];
            c != ' ' && c != '\t' && c != '\n' && c != '\r' && c != '(' && c != ')' && c != '"'
        }
}

/// The text stands in the other one from the place on.
spec fn stands_at(s: Seq<char>, i: int, t: Seq<char>) -> bool {
    0 <= i && i + t.len() <= s.len() && forall|k: int| 0 <= k < t.len() ==> s[i + k] == #[trigger] t[k]
}

proof fn stands_in_two(s: Seq<char>, i: int, a: Seq<char>, b: Seq<char>)
    requires
        stands_at(s, i, a + b),
    ensures
        stands_at(s, i, a),
        stands_at(s, i + a.len(), b),
{
    assert forall|k: int| 0 <= k < a.len() implies s[i + k] == #[trigger] a[k] by {
        assert((a + b)[k] == a[k]);
    }
    assert forall|k: int| 0 <= k < b.len() implies s[i + a.len() + k] == #[trigger] b[k] by {
        assert((a + b)[a.len() + k] == b[k]);
        assert(s[i + (a.len() + k)] == (a + b)[a.len() + k]);
    }
}

proof fn quotes_are_read(s: Seq<char>, i: int, t: Seq<char>)
    requires
        stands_at(s, i, escaped(t) + seq!['"']),
    ensures
        quoted_from(s, i) == Some((t, i + escaped(t).len() + 1)),
    decreases t.len(),
{
    stands_in_two(s, i, escaped(t), seq!['"']);
    if t.len() == 0 {
        assert(seq!['"'][0] == '"');
        assert(s[i + 0] == '"');
        assert(t =~= Seq::empty());
    } else {
        let e = escaped_char(t[0]);
        let rest = t.drop_first();
        assert(escaped(t) == e + escaped(rest));
        assert((e + escaped(rest)) + seq!['"'] =~= e + (escaped(rest) + seq!['"']));
        stands_in_two(s, i, e, escaped(rest) + seq!['"']);
        quotes_are_read(s, i + e.len(), rest);
        assert(seq![t[0]] + rest =~= t);
        assert(s[i + 0] == e[0]);
        if e.len() == 2 {
            assert(s[i + 1] == e[1]);
        }
    }
}

proof fn words_are_read(s: Seq<char>, i: int, w: Seq<char>, k: int)
    requires
        is_word(w),
        stands_at(s, i, w + seq![' ']),
        0 <= k <= w.len(),
    ensures
        word_end(s, i + k) == i + w.len(),
    decreases w.len() - k,
{
    stands_in_two(s, i, w, seq![' ']);
    if k < w.len() {
        assert(s[i + k] == w[k]);
        words_are_read(s, i, w, k + 1);
    } else {
        assert(seq![' '][0] == ' ');
        assert(s[i + w.len() + 0] == ' ');
    }
}

proof fn read_from(s: Seq<char>, i: int, ps: Seq<PieceV>)
    requires
        forall|k: int|
            0 <= k < ps.len() ==> ((#[trigger] ps[k]) matches PieceV::Word(w) ==> is_word(w)),
        stands_at(s, i, pieces_text(ps)),
        i + pieces_text(ps).len() == s.len(),
    ensures
        pieces_from(s, i) == Some(ps),
    decreases ps.len(),
{
    if ps.len() == 0 {
        assert(ps =~= Seq::empty());
    } else {
        let p = ps[0];
        let rest = ps.drop_first();
        let t = piece_text(p);
        assert forall|k: int| 0 <= k < rest.len() implies ((
        #[trigger] rest[k]) matches PieceV::Word(w) ==> is_word(w)) by {
            assert(rest[k] == ps[k + 1]);
        }
        stands_in_two(s, i, t, pieces_text(rest));
        read_from(s, i + t.len(), rest);
        assert(seq![p] + rest =~= ps);
        match p {
            PieceV::Open => {
                assert(s[i + 0] == t[0]);
            },
            PieceV::Close => {
                assert(s[i + 0] == t[0]);
            },
            PieceV::Word(w) => {
                assert(is_word(w));
                words_are_read(s, i, w, 0);
                stands_in_two(s, i, w, seq![' ']);
                assert(s[i + 0] == w[0]);
                assert(seq![' '][0] == ' ');
                assert(s[i + w.len() + 0] == ' ');
                assert(s.subrange(i, i + w.len()) =~= w) by {
                    assert forall|k: int| 0 <= k < w.len() implies s.subrange(i, i + w.len())[k]
                        == w[k] by {
                        assert(s[i + k] == w[k]);
                    }
                }
                assert(pieces_from(s, i + w.len()) == pieces_from(s, i + w.len() + 1));
            },
            PieceV::Quoted(q) => {
                assert(t == seq!['"'] + escaped(q) + seq!['"']);
                assert(t =~= seq!['"'] + (escaped(q) + seq!['"']));
                stands_in_two(s, i, seq!['"'], escaped(q) + seq!['"']);
                assert(seq!['"'][0] == '"');
                assert(s[i + 0] == '"');
                quotes_are_read(s, i + 1, q);
                assert(t.len() == escaped(q).len() + 2);
            },
        }
    }
}

/// Pieces that are written out are read back: parentheses, words, and texts in quotes, whatever
/// characters these hold.
pub proof fn pieces_are_read_back(ps: Seq<PieceV>)
    requires
        forall|k: int|
            0 <= k < ps.len() ==> ((#[trigger] ps[k]) matches PieceV::Word(w) ==> is_word(w)),
    ensures
        pieces_from(pieces_text(ps), 0) == Some(ps),
{
    read_from(pieces_text(ps), 0, ps);
}

/// The digits of a number.
pub open spec fn number_text(n: nat) -> Seq<char>
    decreases n,
{
    if n < 10 {
        seq![('0' as u32 + n as u32) as char]
    } else {
        number_text(n / 10) + seq![('0' as u32 + (n % 10) as u32) as char]
    }
}

proof fn digits_are_read(n: nat)
    ensures
        is_digits(number_text(n)),
        digits_value(number_text(n)) == n,
        !is_signed(number_text(n)),
    decreases n,
{
    let t = number_text(n);
    if n < 10 {
        assert(t.drop_last() =~= Seq::empty());
        assert(digits_value(t.drop_last()) == 0);
        assert(t.last() == ('0' as u32 + n as u32) as char);
    } else {
        digits_are_read(n / 10);
        let f = number_text(n / 10);
        assert(t.drop_last() =~= f);
        assert(t.last() == ('0' as u32 + (n % 10) as u32) as char);
        assert forall|i: int| 0 <= i < t.len() implies '0' <= #[trigger] t[i] <= '9' by {
            if i < f.len() {
                assert(t[i] == f[i]);
            }
        }
        assert(t[0] == f[0]);
    }
}

/// A whole number written in digits is read back, with or without a sign.
pub proof fn whole_numbers_are_read_back(n: nat)
    requires
        n <= i64::MAX,
    ensures
        whole_number(number_text(n)) == Some(n as i64),
        whole_number(seq!['+'] + number_text(n)) == Some(n as i64),
        whole_number(seq!['-'] + number_text(n)) == Some((-n) as i64),
{
    digits_are_read(n);
    let t = number_text(n);
    assert((seq!['+'] + t).skip(1) =~= t);
    assert((seq!['-'] + t).skip(1) =~= t);
    assert((seq!['+'] + t)[0] == '+');
    assert((seq!['-'] + t)[0] == '-');
}

} // verus!
