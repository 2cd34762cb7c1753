//! Text helpers: equality, code-point order, joining and decimal rendering.
//!
//! Contracts speak of the characters of a string, `s@`.
use vstd::prelude::*;
use vstd::string::StringSliceAdditionalSpecFns;

verus! {

broadcast use vstd::utf8::encode_utf8_decode_utf8;

/// Whether two texts hold the same characters.
pub fn same(a: &str, b: &str) -> (r: bool)
    ensures
        r == (a@ == b@),
{
    let x = a.as_bytes();
    let y = b.as_bytes();
    if x.len() != y.len() {
        return false;
    }
    let n: usize = x.len();
    let mut i: usize = 0;
    while i < n
        invariant
            n == x@.len(),
            n == y@.len(),
            i <= n,
            x@ == a.spec_bytes(),
            y@ == b.spec_bytes(),
            forall|j: int| 0 <= j < i ==> x@[j] == y@[j],
        decreases n - i,
    {
        if x[i] != y[i] {
            return false;
        }
        i += 1;
    }
    assert(x@ =~= y@);
    assert(vstd::utf8::decode_utf8(vstd::utf8::encode_utf8(a@)) == vstd::utf8::decode_utf8(
        vstd::utf8::encode_utf8(b@),
    ));
    true
}

/// The characters of a text.
pub fn chars_of(s: &str) -> (r: Vec<char>)
    ensures
        r@ == s@,
{
    let mut out: Vec<char> = Vec::new();
    for c in it: s.chars()
        invariant
            out@ == it.seq().take(it.index() as int),
    {
        out.push(c);
        assert(it.seq().take(it.index() + 1) =~= it.seq().take(it.index() as int).push(c));
    }
    assert(out@ =~= s@);
    out
}

/// Whether the text has no character.
pub fn is_empty_text(s: &str) -> (r: bool)
    ensures
        r == (s@.len() == 0),
{
    chars_of(s).len() == 0
}

/// The text ends with the other.
pub open spec fn ends_in(s: Seq<char>, t: Seq<char>) -> bool {
    t.len() <= s.len() && s.skip(s.len() - t.len()) == t
}

/// The text starts with the other.
pub open spec fn begins_with(s: Seq<char>, t: Seq<char>) -> bool {
    t.len() <= s.len() && s.take(t.len() as int) == t
}

/// Whether the text ends with the other.
pub fn ends_with(s: &str, t: &str) -> (r: bool)
    ensures
        r == ends_in(s@, t@),
{
    let x = chars_of(s);
    let y = chars_of(t);
    let n: usize = x.len();
    let m: usize = y.len();
    if m > n {
        return false;
    }
    let mut i: usize = 0;
    while i < m
        invariant
            n == x@.len(),
            m == y@.len(),
            m <= n,
            i <= m,
            x@ == s@,
            y@ == t@,
            forall|j: int| 0 <= j < i ==> x@[n - m + j] == y@[j],
        decreases m - i,
    {
        if x[n - m + i] != y[i] {
            assert(s@.skip(n - m)[i as int] != t@[i as int]);
            return false;
        }
        i += 1;
    }
    assert(s@.skip(n - m) =~= t@);
    true
}

/// Whether the text starts with the other.
pub fn starts_with(s: &str, t: &str) -> (r: bool)
    ensures
        r == begins_with(s@, t@),
{
    let x = chars_of(s);
    let y = chars_of(t);
    let n: usize = x.len();
    let m: usize = y.len();
    if m > n {
        return false;
    }
    let mut i: usize = 0;
    while i < m
        invariant
            n == x@.len(),
            m == y@.len(),
            m <= n,
            i <= m,
            x@ == s@,
            y@ == t@,
            forall|j: int| 0 <= j < i ==> x@[j] == y@[j],
        decreases m - i,
    {
        if x[i] != y[i] {
            assert(s@.take(m as int)[i as int] != t@[i as int]);
            return false;
        }
        i += 1;
    }
    assert(s@.take(m as int) =~= t@);
    true
}

/// Code-point order on texts: the order in which Rust's `str` sorts.
pub open spec fn lex_le(a: Seq<char>, b: Seq<char>) -> bool
    decreases a.len(),
{
    a.len() == 0 || (b.len() > 0 && ((a[0] as int) < (b[0] as int) || (a[0] == b[0] && lex_le(
        a.drop_first(),
        b.drop_first(),
    ))))
}

/// The code-point order is total.
pub proof fn lex_total(a: Seq<char>, b: Seq<char>)
    ensures
        lex_le(a, b) || lex_le(b, a),
    decreases a.len(),
{
    if a.len() > 0 && b.len() > 0 {
        lex_total(a.drop_first(), b.drop_first());
    }
}

/// The code-point order is transitive.
pub proof fn lex_trans(a: Seq<char>, b: Seq<char>, c: Seq<char>)
    requires
        lex_le(a, b),
        lex_le(b, c),
    ensures
        lex_le(a, c),
    decreases a.len(),
{
    if a.len() > 0 && b.len() > 0 && c.len() > 0 && a[0] == b[0] && b[0] == c[0] {
        lex_trans(a.drop_first(), b.drop_first(), c.drop_first());
    }
}

/// Two texts that precede each other in code-point order are the same.
pub proof fn lex_antisymmetric(a: Seq<char>, b: Seq<char>)
    requires
        lex_le(a, b),
        lex_le(b, a),
    ensures
        a == b,
    decreases a.len(),
{
    if a.len() > 0 && b.len() > 0 {
        lex_antisymmetric(a.drop_first(), b.drop_first());
        assert(a =~= seq![a[0]] + a.drop_first());
        assert(b =~= seq![b[0]] + b.drop_first());
    } else {
        assert(a =~= b);
    }
}

/// Whether `a` comes no later than `b` in code-point order.
pub fn text_le(a: &str, b: &str) -> (r: bool)
    ensures
        r == lex_le(a@, b@),
{
    let x = chars_of(a);
    let y = chars_of(b);
    let mut i: usize = 0;
    assert(x@.skip(0) =~= a@);
    assert(y@.skip(0) =~= b@);
    while i < x.len() && i < y.len()
        invariant
            i <= x@.len(),
            i <= y@.len(),
            x@ == a@,
            y@ == b@,
            lex_le(a@, b@) == lex_le(x@.skip(i as int), y@.skip(i as int)),
        decreases x@.len() - i,
    {
        assert(x@.skip(i as int).drop_first() =~= x@.skip(i + 1));
        assert(y@.skip(i as int).drop_first() =~= y@.skip(i + 1));
        let c: char = x[i];
        let d: char = y[i];
        if c != d {
            return c < d;
        }
        i += 1;
    }
    i == x.len()
}

/// Whether the list holds the text.
pub fn holds(list: &Vec<String>, s: &str) -> (r: bool)
    ensures
        r == list.deep_view().contains(s@),
{
    let n: usize = list.len();
    let mut i: usize = 0;
    while i < n
        invariant
            n == list@.len(),
            i <= n,
            forall|j: int| 0 <= j < i ==> list.deep_view()[j] != s@,
        decreases n - i,
    {
        if same(list[i].as_str(), s) {
            assert(list.deep_view()[i as int] == s@);
            return true;
        }
        i += 1;
    }
    false
}

/// The texts one behind the other, `sep` between each two.
pub open spec fn joined(list: Seq<Seq<char>>, sep: Seq<char>) -> Seq<char>
    decreases list.len(),
{
    if list.len() == 0 {
        Seq::empty()
    } else if list.len() == 1 {
        list[0]
    } else {
        joined(list.drop_last(), sep) + sep + list.last()
    }
}

/// Joins the texts with `sep` between each two.
pub fn join(list: &Vec<String>, sep: &str) -> (r: String)
    ensures
        r@ == joined(list.deep_view(), sep@),
{
    let n: usize = list.len();
    let mut out = String::new();
    let mut i: usize = 0;
    assert(out@ =~= joined(list.deep_view().take(0), sep@));
    while i < n
        invariant
            n == list@.len(),
            i <= n,
            out@ == joined(list.deep_view().take(i as int), sep@),
        decreases n - i,
    {
        let ghost now = list.deep_view().take(i + 1);
        assert(now.drop_last() =~= list.deep_view().take(i as int));
        if i > 0 {
            out.append(sep);
        }
        let ghost mid = out@;
        out.append(list[i].as_str());
        assert(out@ =~= joined(now, sep@));
        i += 1;
    }
    assert(list.deep_view().take(n as int) =~= list.deep_view());
    out
}

/// The texts, each between back quotes.
pub open spec fn quoted(list: Seq<Seq<char>>) -> Seq<Seq<char>> {
    Seq::new(list.len(), |i: int| "`"@ + list[i] + "`"@)
}

/// The texts between back quotes, separated by commas.
pub fn quote_all(list: &Vec<String>) -> (r: String)
    ensures
        r@ == joined(quoted(list.deep_view()), ", "@),
{
    let n: usize = list.len();
    let mut out: Vec<String> = Vec::new();
    let mut i: usize = 0;
    while i < n
        invariant
            n == list@.len(),
            i <= n,
            out@.len() == i,
            forall|j: int| 0 <= j < i ==> (#[trigger] out@[j])@ == quoted(list.deep_view())[j],
        decreases n - i,
    {
        out.push("`".to_string().concat(list[i].as_str()).concat("`"));
        i += 1;
    }
    assert(out.deep_view() =~= quoted(list.deep_view()));
    join(&out, ", ")
}

/// The character of a decimal digit.
pub open spec fn digit(d: int) -> char {
    if d == 0 {
        '0'
    } else if d == 1 {
        '1'
    } else if d == 2 {
        '2'
    } else if d == 3 {
        '3'
    } else if d == 4 {
        '4'
    } else if d == 5 {
        '5'
    } else if d == 6 {
        '6'
    } else if d == 7 {
        '7'
    } else if d == 8 {
        '8'
    } else {
        '9'
    }
}

/// The decimal digits of a number, without leading zeros.
pub open spec fn decimal(n: nat) -> Seq<char>
    decreases n,
{
    if n < 10 {
        seq![digit(n as int)]
    } else {
        decimal(n / 10).push(digit((n % 10) as int))
    }
}

fn digit_text(d: u64) -> (r: &'static str)
    requires
        d < 10,
    ensures
        r@ == seq![digit(d as int)],
{
    proof {
        reveal_strlit("0");
        reveal_strlit("1");
        reveal_strlit("2");
        reveal_strlit("3");
        reveal_strlit("4");
        reveal_strlit("5");
        reveal_strlit("6");
        reveal_strlit("7");
        reveal_strlit("8");
        reveal_strlit("9");
    }
    let r: &'static str = if d == 0 {
        "0"
    } else if d == 1 {
        "1"
    } else if d == 2 {
        "2"
    } else if d == 3 {
        "3"
    } else if d == 4 {
        "4"
    } else if d == 5 {
        "5"
    } else if d == 6 {
        "6"
    } else if d == 7 {
        "7"
    } else if d == 8 {
        "8"
    } else {
        "9"
    };
    assert(r@ =~= seq![digit(d as int)]);
    r
}

/// Writes a number in decimal.
pub fn decimal_text(n: u64) -> (r: String)
    ensures
        r@ == decimal(n as nat),
    decreases n,
{
    if n < 10 {
        digit_text(n).to_string()
    } else {
        let head = decimal_text(n / 10);
        let out = head.concat(digit_text(n % 10));
        assert(out@ =~= decimal(n as nat));
        out
    }
}

/// Writes a size in decimal.
pub fn size_text(n: usize) -> (r: String)
    ensures
        r@ == decimal(n as nat),
{
    decimal_text(n as u64)
}

/// Three texts one behind the other.
pub fn cat3(a: &str, b: &str, c: &str) -> (r: String)
    ensures
        r@ == a@ + b@ + c@,
{
    a.to_string().concat(b).concat(c)
}

/// Five texts one behind the other.
pub fn cat5(a: &str, b: &str, c: &str, d: &str, e: &str) -> (r: String)
    ensures
        r@ == a@ + b@ + c@ + d@ + e@,
{
    a.to_string().concat(b).concat(c).concat(d).concat(e)
}

/// The decimal form of an integer.
pub open spec fn int_decimal(i: int) -> Seq<char> {
    if i < 0 {
        "-"@ + decimal((-i) as nat)
    } else {
        decimal(i as nat)
    }
}

/// Writes an integer in decimal.
pub fn int_text(i: i64) -> (r: String)
    ensures
        r@ == int_decimal(i as int),
{
    if i < 0 {
        let size: u64 = (-(i as i128)) as u64;
        "-".to_string().concat(decimal_text(size).as_str())
    } else {
        decimal_text(i as u64)
    }
}

/// The character has the Unicode property `White_Space`.
pub open spec fn is_white(c: char) -> bool {
    let n = c as u32;
    ||| 0x9 <= n <= 0xd
    ||| n == 0x20
    ||| n == 0x85
    ||| n == 0xa0
    ||| n == 0x1680
    ||| 0x2000 <= n <= 0x200a
    ||| n == 0x2028
    ||| n == 0x2029
    ||| n == 0x202f
    ||| n == 0x205f
    ||| n == 0x3000
}

/// Whether the character has the Unicode property `White_Space`.
pub fn white(c: char) -> (r: bool)
    ensures
        r == is_white(c),
{
    let n: u32 = c as u32;
    (0x9 <= n && n <= 0xd) || n == 0x20 || n == 0x85 || n == 0xa0 || n == 0x1680 || (0x2000 <= n && n
        <= 0x200a) || n == 0x2028 || n == 0x2029 || n == 0x202f || n == 0x205f || n == 0x3000
}

/// The number of white characters that the text begins with.
pub open spec fn leading_white(s: Seq<char>) -> int
    decreases s.len(),
{
    if s.len() > 0 && is_white(s[0]) {
        1 + leading_white(s.drop_first())
    } else {
        0
    }
}

/// The text without the white characters at its end.
pub open spec fn trim_end(s: Seq<char>) -> Seq<char>
    decreases s.len(),
{
    if s.len() > 0 && is_white(s.last()) {
        trim_end(s.drop_last())
    } else {
        s
    }
}

/// The text without the white characters at its two ends.
pub open spec fn trimmed(s: Seq<char>) -> Seq<char> {
    trim_end(s.skip(leading_white(s)))
}

/// The part of the text before its first line feed.
pub open spec fn first_line(s: Seq<char>) -> Seq<char>
    decreases s.len(),
{
    if s.len() == 0 || s[0] == '\n' {
        Seq::empty()
    } else {
        seq![s[0]] + first_line(s.drop_first())
    }
}

/// The first line of the text, without the white characters at its two ends.
pub fn headline(s: &str) -> (r: String)
    ensures
        r@ == trimmed(first_line(s@)),
{
    let chars = chars_of(s);
    let mut end: usize = 0;
    assert(chars@.skip(0) =~= s@);
    assert(s@.take(0) + first_line(s@) =~= first_line(s@));
    while end < chars.len() && chars[end] != '\n'
        invariant
            chars@ == s@,
            end <= chars@.len(),
            first_line(s@) == s@.take(end as int) + first_line(chars@.skip(end as int)),
        decreases chars@.len() - end,
    {
        assert(chars@.skip(end as int).drop_first() =~= chars@.skip(end + 1));
        assert(s@.take(end as int) + (seq![s@[end as int]] + first_line(chars@.skip(end + 1)))
            =~= s@.take(end + 1) + first_line(chars@.skip(end + 1)));
        end += 1;
    }
    let ghost line = first_line(s@);
    assert(line =~= s@.take(end as int));
    let mut from: usize = 0;
    assert(line.skip(0) =~= line);
    while from < end && white(chars[from])
        invariant
            chars@ == s@,
            from <= end <= chars@.len(),
            line == s@.take(end as int),
            leading_white(line) == from + leading_white(line.skip(from as int)),
        decreases end - from,
    {
        assert(line.skip(from as int).drop_first() =~= line.skip(from + 1));
        from += 1;
    }
    let ghost rest = line.skip(from as int);
    assert(leading_white(rest) == 0);
    let mut to: usize = end;
    assert(rest =~= s@.subrange(from as int, to as int));
    while to > from && white(chars[to - 1])
        invariant
            chars@ == s@,
            from <= to <= end,
            end <= chars@.len(),
            trim_end(rest) == trim_end(s@.subrange(from as int, to as int)),
        decreases to - from,
    {
        assert(s@.subrange(from as int, to as int).drop_last() =~= s@.subrange(
            from as int,
            to - 1,
        ));
        to -= 1;
    }
    let r = s.substring_char(from, to);
    r.to_string()
}

} // verus!
