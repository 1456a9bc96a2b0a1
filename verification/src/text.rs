//! Characters, trimming, and numbers in words and addresses.

use vstd::prelude::*;
use vstd::string::*;

verus! {

/// The characters with Unicode's `White_Space` property.
pub open spec fn white_space(c: char) -> bool {
    let u = c as u32;
    ||| 0x9 <= u <= 0xd
    ||| u == 0x20
    ||| u == 0x85
    ||| u == 0xa0
    ||| u == 0x1680
    ||| 0x2000 <= u <= 0x200a
    ||| u == 0x2028
    ||| u == 0x2029
    ||| u == 0x202f
    ||| u == 0x205f
    ||| u == 0x3000
}

/// The characters of Unicode's category `Cc`.
pub open spec fn control(c: char) -> bool {
    let u = c as u32;
    u <= 0x1f || 0x7f <= u <= 0x9f
}

pub fn is_white_space(c: char) -> (r: bool)
    ensures
        r == white_space(c),
{
    let u: u32 = c as u32;
    (0x9 <= u && u <= 0xd) || u == 0x20 || u == 0x85 || u == 0xa0 || u == 0x1680 || (0x2000 <= u
        && u <= 0x200a) || u == 0x2028 || u == 0x2029 || u == 0x202f || u == 0x205f || u == 0x3000
}

pub fn is_control(c: char) -> (r: bool)
    ensures
        r == control(c),
{
    let u: u32 = c as u32;
    u <= 0x1f || (0x7f <= u && u <= 0x9f)
}

/// The text without the white space that it begins with.
pub open spec fn trimmed_start(s: Seq<char>) -> Seq<char>
    decreases s.len(),
{
    if s.len() > 0 && white_space(s[0]) {
        trimmed_start(s.drop_first())
    } else {
        s
    }
}

/// The text without the white space that it ends with.
pub open spec fn trimmed_end(s: Seq<char>) -> Seq<char>
    decreases s.len(),
{
    if s.len() > 0 && white_space(s.last()) {
        trimmed_end(s.drop_last())
    } else {
        s
    }
}

/// The text without white space at either end.
pub open spec fn trimmed(s: Seq<char>) -> Seq<char> {
    trimmed_end(trimmed_start(s))
}

/// The characters of a text.
pub fn to_chars(s: &str) -> (v: Vec<char>)
    ensures
        v@ == s@,
{
    let mut v: Vec<char> = Vec::new();
    for c in it: s.chars()
        invariant
            v@ == it.seq().take(it.index() as int),
            it.seq() == s@,
    {
        proof {
            assert(it.seq().take(it.index() + 1) =~= it.seq().take(it.index() as int).push(c));
        }
        v.push(c);
    }
    assert(s@.take(s@.len() as int) =~= s@);
    v
}

/// The text without white space at either end.
pub fn trim<'a>(s: &'a str) -> (r: &'a str)
    ensures
        r@ == trimmed(s@),
{
    let chars = to_chars(s);
    let len: usize = chars.len();
    let mut from: usize = 0;
    assert(s@.skip(0) =~= s@);
    while from < len && is_white_space(chars[from])
        invariant
            chars@ == s@,
            len == s@.len(),
            from <= len,
            trimmed_start(s@) == trimmed_start(s@.skip(from as int)),
        decreases len - from,
    {
        assert(s@.skip(from as int).drop_first() =~= s@.skip(from + 1));
        from = from + 1;
    }
    let ghost rest = s@.skip(from as int);
    assert(trimmed_start(s@) == rest);
    let mut to: usize = len;
    assert(s@.subrange(from as int, to as int) =~= rest);
    while from < to && is_white_space(chars[to - 1])
        invariant
            chars@ == s@,
            from <= to <= s@.len(),
            trimmed_end(rest) == trimmed_end(s@.subrange(from as int, to as int)),
        decreases to,
    {
        assert(s@.subrange(from as int, to as int).drop_last() =~= s@.subrange(
            from as int,
            to - 1,
        ));
        to = to - 1;
    }
    s.substring_char(from, to)
}

/// The character for a decimal digit.
pub open spec fn digit(d: nat) -> char {
    (0x30 + d) as char
}

/// A number in decimal notation.
pub open spec fn decimal(n: nat) -> Seq<char>
    decreases n,
{
    if n < 10 {
        seq![digit(n)]
    } else {
        decimal(n / 10).push(digit(n % 10))
    }
}

fn digit_text(d: u64) -> (r: &'static str)
    requires
        d < 10,
    ensures
        r@ == seq![digit(d as nat)],
{
    proof {
        reveal_strlit("0");
        reveal_strlit("1");
        reveal_strlit("2");
        reveal_strlit("3");
        reveal_strlit("4");
        reveal_strlit("5");
        reveal_strlit("6");
        reveal_strlit("7");
        reveal_strlit("8");
        reveal_strlit("9");
    }
    let r = match d {
        0 => "0",
        1 => "1",
        2 => "2",
        3 => "3",
        4 => "4",
        5 => "5",
        6 => "6",
        7 => "7",
        8 => "8",
        _ => "9",
    };
    assert(r@ =~= seq![digit(d as nat)]);
    r
}

/// Appends a number in decimal notation.
pub fn push_decimal(out: &mut String, n: u64)
    ensures
        final(out)@ == old(out)@ + decimal(n as nat),
    decreases n,
{
    if n >= 10 {
        push_decimal(out, n / 10);
    }
    out.append(digit_text(n % 10));
    assert(out@ =~= old(out)@ + decimal(n as nat));
}

/// A host and a port as one address, with a colon between them.
pub open spec fn address(host: Seq<char>, port: u16) -> Seq<char> {
    host + seq![':'] + decimal(port as nat)
}

/// A host and a port as one address.
pub fn socket_address(host: &str, port: u16) -> (r: String)
    ensures
        r@ == address(host@, port),
{
    let mut r = host.to_owned();
    r.append(":");
    push_decimal(&mut r, port as u64);
    proof {
        reveal_strlit(":");
        assert(":"@ =~= seq![':']);
    }
    r
}

/// A text around a number.
pub fn numbered(before: &str, n: u64, after: &str) -> (r: String)
    ensures
        r@ == before@ + decimal(n as nat) + after@,
{
    let mut r = before.to_owned();
    push_decimal(&mut r, n);
    r.append(after);
    r
}

/// Trimming leaves no white space at either end.
pub proof fn law_trimmed_ends(s: Seq<char>)
    ensures
        trimmed(s).len() > 0 ==> !white_space(trimmed(s)[0]) && !white_space(trimmed(s).last()),
{
    lemma_trimmed_start(s);
    lemma_trimmed_end(trimmed_start(s));
}

/// Trimming again changes nothing.
pub proof fn law_trim_twice(s: Seq<char>)
    ensures
        trimmed(trimmed(s)) == trimmed(s),
{
    law_trimmed_ends(s);
}

/// What is trimmed is a part of the text.
pub proof fn lemma_trimmed_part(s: Seq<char>)
    ensures
        exists|i: int, j: int| 0 <= i <= j <= s.len() && trimmed(s) == #[trigger] s.subrange(i, j),
{
    lemma_trimmed_start(s);
    lemma_trimmed_end(trimmed_start(s));
    let k = s.len() - trimmed_start(s).len();
    let t = trimmed(s);
    assert(t =~= s.subrange(k, k + t.len()));
}

proof fn lemma_trimmed_start(s: Seq<char>)
    ensures
        trimmed_start(s).len() <= s.len(),
        trimmed_start(s) == s.skip(s.len() - trimmed_start(s).len()),
        trimmed_start(s).len() > 0 ==> !white_space(trimmed_start(s)[0]),
    decreases s.len(),
{
    if s.len() > 0 && white_space(s[0]) {
        lemma_trimmed_start(s.drop_first());
        let n = s.len() - trimmed_start(s).len();
        assert(s.drop_first().skip(n - 1) =~= s.skip(n));
    } else {
        assert(s.skip(0) =~= s);
    }
}

proof fn lemma_trimmed_end(s: Seq<char>)
    ensures
        trimmed_end(s).len() <= s.len(),
        trimmed_end(s) == s.take(trimmed_end(s).len() as int),
        trimmed_end(s).len() > 0 ==> !white_space(trimmed_end(s).last()),
    decreases s.len(),
{
    if s.len() > 0 && white_space(s.last()) {
        lemma_trimmed_end(s.drop_last());
        let n = trimmed_end(s).len() as int;
        assert(s.drop_last().take(n) =~= s.take(n));
    } else {
        assert(s.take(s.len() as int) =~= s);
    }
}

/// Two numbers that are written alike are one.
pub proof fn law_decimal_distinct(m: nat, n: nat)
    requires
        decimal(m) == decimal(n),
    ensures
        m == n,
    decreases m,
{
    lemma_decimal_len(m);
    lemma_decimal_len(n);
    assert(decimal(m).last() == digit(m % 10));
    assert(decimal(n).last() == digit(n % 10));
    if m >= 10 && n >= 10 {
        assert(decimal(m).drop_last() =~= decimal(m / 10));
        assert(decimal(n).drop_last() =~= decimal(n / 10));
        law_decimal_distinct(m / 10, n / 10);
    }
}

proof fn lemma_decimal_len(n: nat)
    ensures
        decimal(n).len() > 0,
        n >= 10 ==> decimal(n).len() > 1,
    decreases n,
{
    if n >= 10 {
        lemma_decimal_len(n / 10);
    }
}

/// A character counts as white space exactly if Unicode gives it that property.
pub proof fn law_white_space(c: char, r: bool)
    requires
        call_ensures(is_white_space, (c,), r),
    ensures
        r == white_space(c),
        r <==> c == '\t' || c == '\n' || c == 0xb as char || c == 0xc as char || c == '\r' || c == ' '
            || c == 0x85 as char || c == 0xa0 as char || c == 0x1680 as char || (0x2000 as char <= c
            && c <= 0x200a as char) || c == 0x2028 as char || c == 0x2029 as char || c
            == 0x202f as char || c == 0x205f as char || c == 0x3000 as char,
{
}

/// A character counts as a control character exactly if its code is below that of the
/// space, or from that of the delete character to 0x9f.
pub proof fn law_control(c: char, r: bool)
    requires
        call_ensures(is_control, (c,), r),
    ensures
        r == control(c),
        r <==> (c as int) < (' ' as int) || 0x7f <= (c as int) <= 0x9f,
{
}

/// Trimming takes off all the white space at both ends and nothing else: a text that
/// begins and ends with other characters comes out of any white space around it.
pub proof fn law_trimmed(before: Seq<char>, inner: Seq<char>, after: Seq<char>)
    requires
        forall|i: int| 0 <= i < before.len() ==> white_space(#[trigger] before[i]),
        forall|i: int| 0 <= i < after.len() ==> white_space(#[trigger] after[i]),
        inner.len() > 0 ==> !white_space(inner[0]) && !white_space(inner.last()),
    ensures
        trimmed(before + inner + after) == inner,
{
    lemma_start_off(before, inner + after);
    assert(before + inner + after =~= before + (inner + after));
    if inner.len() > 0 {
        assert(trimmed_start(inner + after) == inner + after);
        lemma_end_off(inner, after);
    } else {
        assert(inner + after =~= after);
        lemma_start_off(after, Seq::empty());
        assert(after + Seq::<char>::empty() =~= after);
        assert(inner =~= Seq::<char>::empty());
    }
}

/// What a call of `trim` gives is the text without white space around it.
pub proof fn law_trim(s: &str, r: &str, before: Seq<char>, inner: Seq<char>, after: Seq<char>)
    requires
        call_ensures(trim, (s,), r),
        s@ == before + inner + after,
        forall|i: int| 0 <= i < before.len() ==> white_space(#[trigger] before[i]),
        forall|i: int| 0 <= i < after.len() ==> white_space(#[trigger] after[i]),
        inner.len() > 0 ==> !white_space(inner[0]) && !white_space(inner.last()),
    ensures
        r@ == inner,
{
    law_trimmed(before, inner, after);
}

proof fn lemma_start_off(before: Seq<char>, rest: Seq<char>)
    requires
        forall|i: int| 0 <= i < before.len() ==> white_space(#[trigger] before[i]),
    ensures
        trimmed_start(before + rest) == trimmed_start(rest),
    decreases before.len(),
{
    if before.len() == 0 {
        assert(before + rest =~= rest);
    } else {
        let tail = before.drop_first();
        assert forall|i: int| 0 <= i < tail.len() implies white_space(#[trigger] tail[i]) by {
            assert(tail[i] == before[i + 1]);
        }
        lemma_start_off(tail, rest);
        assert(white_space(before[0]));
        assert((before + rest).drop_first() =~= tail + rest);
    }
}

proof fn lemma_end_off(inner: Seq<char>, after: Seq<char>)
    requires
        forall|i: int| 0 <= i < after.len() ==> white_space(#[trigger] after[i]),
        inner.len() > 0 && !white_space(inner.last()),
    ensures
        trimmed_end(inner + after) == inner,
    decreases after.len(),
{
    if after.len() == 0 {
        assert(inner + after =~= inner);
    } else {
        let front = after.drop_last();
        assert forall|i: int| 0 <= i < front.len() implies white_space(#[trigger] front[i]) by {
            assert(front[i] == after[i]);
        }
        lemma_end_off(inner, front);
        assert(white_space(after[after.len() - 1]));
        assert((inner + after).drop_last() =~= inner + front);
    }
}

/// Every text is one that is trimmed, with white space around it.
pub proof fn lemma_trim_parts(s: Seq<char>) -> (r: (Seq<char>, Seq<char>, Seq<char>))
    ensures
        s == r.0 + r.1 + r.2,
        r.1 == trimmed(s),
        forall|i: int| 0 <= i < r.0.len() ==> white_space(#[trigger] r.0[i]),
        forall|i: int| 0 <= i < r.2.len() ==> white_space(#[trigger] r.2[i]),
        r.1.len() > 0 ==> !white_space(r.1[0]) && !white_space(r.1.last()),
    decreases s.len(),
{
    if s.len() > 0 && white_space(s[0]) {
        let t = lemma_trim_parts(s.drop_first());
        assert(s =~= seq![s[0]] + s.drop_first());
        let r = (seq![s[0]] + t.0, t.1, t.2);
        assert(s =~= r.0 + r.1 + r.2);
        assert forall|i: int| 0 <= i < r.0.len() implies white_space(#[trigger] r.0[i]) by {
            if i > 0 {
                assert(r.0[i] == t.0[i - 1]);
            }
        }
        r
    } else if s.len() > 0 && white_space(s.last()) {
        let t = lemma_trim_parts(s.drop_last());
        assert(s =~= s.drop_last().push(s.last()));
        let r = (t.0, t.1, t.2.push(s.last()));
        assert(s =~= r.0 + r.1 + r.2);
        assert forall|i: int| 0 <= i < r.2.len() implies white_space(#[trigger] r.2[i]) by {
            if i < t.2.len() {
                assert(r.2[i] == t.2[i]);
            }
        }
        law_trimmed(r.0, r.1, r.2);
        r
    } else {
        let r = (Seq::empty(), s, Seq::empty());
        assert(s =~= r.0 + r.1 + r.2);
        r
    }
}

/// A text has something left when it is trimmed exactly if not all of it is white space.
pub proof fn law_blank(s: Seq<char>)
    ensures
        trimmed(s).len() == 0 <==> forall|i: int|
            0 <= i < s.len() ==> white_space(#[trigger] s[i]),
{
    let (a, t, b) = lemma_trim_parts(s);
    if t.len() == 0 {
        assert forall|i: int| 0 <= i < s.len() implies white_space(#[trigger] s[i]) by {
            if i < a.len() {
                assert(s[i] == a[i]);
            } else {
                assert(s[i] == b[i - a.len()]);
            }
        }
    } else {
        assert(s[a.len() as int] == t[0]);
    }
}

/// Decimal notation: a number below ten is its digit, and a digit behind a number makes
/// the number ten times as large and adds the digit.
pub proof fn law_decimal(n: nat, d: nat)
    requires
        d < 10,
    ensures
        decimal(d).len() == 1,
        decimal(d)[0] as int == '0' as int + d,
        n > 0 ==> decimal(10 * n + d).len() == decimal(n).len() + 1,
        n > 0 ==> decimal(10 * n + d).drop_last() == decimal(n),
        n > 0 ==> decimal(10 * n + d).last() as int == '0' as int + d,
{
    if n > 0 {
        assert((10 * n + d) / 10 == n);
        assert((10 * n + d) % 10 == d);
        assert(decimal(10 * n + d).drop_last() =~= decimal(n));
    }
}

/// Texts are put together as they are: a number behind a text, a number between two, and
/// a port behind a host with a colon between them.
pub proof fn law_texts_put_together(
    out: &mut String,
    n: u64,
    before: &str,
    after: &str,
    r: String,
    host: &str,
    port: u16,
    a: String,
)
    requires
        call_ensures(push_decimal, (out, n), ()),
        call_ensures(numbered, (before, n, after), r),
        call_ensures(socket_address, (host, port), a),
    ensures
        final(out)@ == old(out)@ + decimal(n as nat),
        r@ == before@ + decimal(n as nat) + after@,
        a@ == host@ + seq![':'] + decimal(port as nat),
{
}

/// The characters of a text come out as they are.
pub proof fn law_characters(s: &str, v: Vec<char>)
    requires
        call_ensures(to_chars, (s,), v),
    ensures
        v@ == s@,
{
}

} // verus!
