//! Text as a sequence of characters: comparison, search and decimal rendering.

use vstd::prelude::*;
use vstd::string::*;

verus! {

/// Whether `needle` stands in `text` at position `at`.
pub open spec fn occurs_at(text: Seq<char>, needle: Seq<char>, at: int) -> bool {
    &&& 0 <= at
    &&& at + needle.len() <= text.len()
    &&& text.subrange(at, at + needle.len()) == needle
}

/// Whether `text` begins with `prefix`.
pub open spec fn begins_with(text: Seq<char>, prefix: Seq<char>) -> bool {
    occurs_at(text, prefix, 0)
}

/// Whether `text` ends with `suffix`.
pub open spec fn finishes_with(text: Seq<char>, suffix: Seq<char>) -> bool {
    occurs_at(text, suffix, text.len() - suffix.len())
}

/// Whether `needle` stands anywhere in `text`.
pub open spec fn occurs(text: Seq<char>, needle: Seq<char>) -> bool {
    exists|at: int| #[trigger] occurs_at(text, needle, at)
}

/// Lexicographic order by code point, which is also the order of the UTF-8 bytes.
pub open spec fn text_lt(a: Seq<char>, b: Seq<char>) -> bool
    decreases a.len(),
{
    if b.len() == 0 {
        false
    } else if a.len() == 0 {
        true
    } else if a[0] != b[0] {
        a[0] < b[0]
    } else {
        text_lt(a.drop_first(), b.drop_first())
    }
}

/// The lower-case form of an ASCII letter; any other character itself.
pub open spec fn ascii_lower(c: char) -> char {
    if 65 <= c as u32 <= 90 {
        ((c as u32 + 32) as u32) as char
    } else {
        c
    }
}

/// A text with its ASCII letters in lower case.
pub open spec fn lower(text: Seq<char>) -> Seq<char> {
    text.map_values(|c: char| ascii_lower(c))
}

/// The decimal digit of a number below ten.
pub open spec fn digit(n: nat) -> char {
    ((48 + n) as u32) as char
}

/// The decimal rendering of a number, without leading zeros.
pub open spec fn decimal(n: nat) -> Seq<char>
    decreases n,
{
    if n < 10 {
        seq![digit(n)]
    } else {
        decimal(n / 10).push(digit(n % 10))
    }
}

/// The order is irreflexive.
pub proof fn lemma_text_lt_irreflexive(a: Seq<char>)
    ensures
        !text_lt(a, a),
    decreases a.len(),
{
    if a.len() > 0 {
        lemma_text_lt_irreflexive(a.drop_first());
    }
}

/// The order is transitive.
pub proof fn lemma_text_lt_transitive(a: Seq<char>, b: Seq<char>, c: Seq<char>)
    requires
        text_lt(a, b),
        text_lt(b, c),
    ensures
        text_lt(a, c),
    decreases a.len(),
{
    if a.len() > 0 && a[0] == b[0] && b[0] == c[0] {
        lemma_text_lt_transitive(a.drop_first(), b.drop_first(), c.drop_first());
    }
}

/// Two texts neither of which precedes the other are the same text.
pub proof fn lemma_text_lt_total(a: Seq<char>, b: Seq<char>)
    ensures
        text_lt(a, b) || text_lt(b, a) || a == b,
    decreases a.len(),
{
    if a.len() > 0 && b.len() > 0 {
        if a[0] == b[0] {
            lemma_text_lt_total(a.drop_first(), b.drop_first());
            if a.drop_first() == b.drop_first() {
                assert(a =~= seq![a[0]] + a.drop_first());
                assert(b =~= seq![b[0]] + b.drop_first());
            }
        }
    } else {
        assert(a.len() == 0 && b.len() == 0 ==> a =~= b);
    }
}

/// The order is asymmetric.
pub proof fn lemma_text_lt_asymmetric(a: Seq<char>, b: Seq<char>)
    requires
        text_lt(a, b),
    ensures
        !text_lt(b, a),
{
    if text_lt(b, a) {
        lemma_text_lt_transitive(a, b, a);
        lemma_text_lt_irreflexive(a);
    }
}

/// What the order says of three texts.
pub proof fn lemma_text_lt_triple(a: Seq<char>, b: Seq<char>, c: Seq<char>)
    ensures
        text_lt(a, b) && text_lt(b, c) ==> text_lt(a, c),
        text_lt(c, b) && text_lt(b, a) ==> text_lt(c, a),
        text_lt(a, b) || text_lt(b, a) || a == b,
        text_lt(b, c) || text_lt(c, b) || b == c,
        text_lt(a, c) || text_lt(c, a) || a == c,
        !(text_lt(a, b) && text_lt(b, a)),
        !(text_lt(b, c) && text_lt(c, b)),
        !(text_lt(a, c) && text_lt(c, a)),
        !text_lt(a, a),
        !text_lt(b, b),
        !text_lt(c, c),
{
    if text_lt(a, b) && text_lt(b, c) {
        lemma_text_lt_transitive(a, b, c);
    }
    if text_lt(c, b) && text_lt(b, a) {
        lemma_text_lt_transitive(c, b, a);
    }
    lemma_text_lt_total(a, b);
    lemma_text_lt_total(b, c);
    lemma_text_lt_total(a, c);
    if text_lt(a, b) {
        lemma_text_lt_asymmetric(a, b);
    }
    if text_lt(b, c) {
        lemma_text_lt_asymmetric(b, c);
    }
    if text_lt(a, c) {
        lemma_text_lt_asymmetric(a, c);
    }
    lemma_text_lt_irreflexive(a);
    lemma_text_lt_irreflexive(b);
    lemma_text_lt_irreflexive(c);
}

proof fn lemma_text_lt_common_prefix(a: Seq<char>, b: Seq<char>, k: int)
    requires
        0 <= k <= a.len(),
        k <= b.len(),
        a.take(k) == b.take(k),
    ensures
        text_lt(a, b) == text_lt(a.skip(k), b.skip(k)),
    decreases k,
{
    if k == 0 {
        assert(a.skip(0) =~= a);
        assert(b.skip(0) =~= b);
    } else {
        assert(a[0] == a.take(k)[0]);
        assert(b[0] == b.take(k)[0]);
        assert(a.drop_first().take(k - 1) =~= a.take(k).drop_first());
        assert(b.drop_first().take(k - 1) =~= b.take(k).drop_first());
        lemma_text_lt_common_prefix(a.drop_first(), b.drop_first(), k - 1);
        assert(a.drop_first().skip(k - 1) =~= a.skip(k));
        assert(b.drop_first().skip(k - 1) =~= b.skip(k));
    }
}

/// The characters of a text, in order.
pub fn chars_of(s: &str) -> (r: Vec<char>)
    ensures
        r@ == s@,
{
    let mut out: Vec<char> = Vec::new();
    for c in it: s.chars()
        invariant
            out@ == it.seq().take(it.index()),
            it.seq() == s@,
    {
        out.push(c);
        assert(out@ =~= it.seq().take(it.index() + 1));
    }
    assert(out@ =~= s@);
    out
}

/// Whether two texts are the same.
pub fn same_text(a: &str, b: &str) -> (r: bool)
    ensures
        r == (a@ == b@),
{
    let x = a.as_bytes();
    let y = b.as_bytes();
    if x.len() != y.len() {
        return false;
    }
    let mut i: usize = 0;
    while i < x.len()
        invariant
            x@ == a.spec_bytes(),
            y@ == b.spec_bytes(),
            x@.len() == y@.len(),
            i <= x@.len(),
            forall|k: int| 0 <= k < i ==> x@[k] == y@[k],
        decreases x@.len() - i,
    {
        if x[i] != y[i] {
            return false;
        }
        i += 1;
    }
    proof {
        assert(x@ =~= y@);
        vstd::utf8::encode_utf8_decode_utf8(a@);
        vstd::utf8::encode_utf8_decode_utf8(b@);
    }
    true
}

/// Whether `a` precedes `b`.
pub fn precedes(a: &str, b: &str) -> (r: bool)
    ensures
        r == text_lt(a@, b@),
{
    let x = chars_of(a);
    let y = chars_of(b);
    let mut i: usize = 0;
    while i < x.len() && i < y.len()
        invariant
            x@ == a@,
            y@ == b@,
            i <= x@.len(),
            i <= y@.len(),
            x@.take(i as int) == y@.take(i as int),
        decreases x@.len() - i,
    {
        if x[i] != y[i] {
            proof {
                lemma_text_lt_common_prefix(a@, b@, i as int);
            }
            return x[i] < y[i];
        }
        proof {
            assert(x@.take(i + 1) =~= x@.take(i as int).push(x@[i as int]));
            assert(y@.take(i + 1) =~= y@.take(i as int).push(y@[i as int]));
        }
        i += 1;
    }
    proof {
        lemma_text_lt_common_prefix(a@, b@, i as int);
    }
    i < y.len()
}

/// Whether the character stands in the text.
pub fn contains_char(s: &str, c: char) -> (r: bool)
    ensures
        r == s@.contains(c),
{
    let x = chars_of(s);
    let mut i: usize = 0;
    while i < x.len()
        invariant
            x@ == s@,
            i <= x@.len(),
            forall|k: int| 0 <= k < i ==> x@[k] != c,
        decreases x@.len() - i,
    {
        if x[i] == c {
            return true;
        }
        i += 1;
    }
    false
}

/// Whether `needle` stands in `text` at position `at`.
pub fn stands_at(text: &Vec<char>, needle: &Vec<char>, at: usize) -> (r: bool)
    ensures
        r == occurs_at(text@, needle@, at as int),
{
    if at > text.len() || needle.len() > text.len() - at {
        return false;
    }
    let mut i: usize = 0;
    while i < needle.len()
        invariant
            at + needle@.len() <= text@.len(),
            text@.len() <= usize::MAX,
            i <= needle@.len(),
            forall|k: int| 0 <= k < i ==> text@[at + k] == needle@[k],
        decreases needle@.len() - i,
    {
        if text[at + i] != needle[i] {
            proof {
                assert(text@.subrange(at as int, at + needle@.len())[i as int] != needle@[i as int]);
            }
            return false;
        }
        i += 1;
    }
    assert(text@.subrange(at as int, at + needle@.len()) =~= needle@);
    true
}

/// Whether `text` begins with `prefix`.
pub fn starts_with(text: &str, prefix: &str) -> (r: bool)
    ensures
        r == begins_with(text@, prefix@),
{
    stands_at(&chars_of(text), &chars_of(prefix), 0)
}

/// Characters with the ASCII letters among them in lower case.
pub fn lowered(t: &Vec<char>) -> (r: Vec<char>)
    ensures
        r@ == lower(t@),
{
    let mut out: Vec<char> = Vec::new();
    let mut i: usize = 0;
    while i < t.len()
        invariant
            i <= t@.len(),
            out@ == lower(t@.take(i as int)),
        decreases t@.len() - i,
    {
        out.push(to_lower(t[i]));
        assert(out@ =~= lower(t@.take(i + 1)));
        i += 1;
    }
    assert(t@.take(i as int) =~= t@);
    out
}

/// The characters of a text, its ASCII letters in lower case.
pub fn lower_chars(s: &str) -> (r: Vec<char>)
    ensures
        r@ == lower(s@),
{
    lowered(&chars_of(s))
}

/// The lower-case form of an ASCII letter; any other character itself.
pub fn to_lower(c: char) -> (r: char)
    ensures
        r == ascii_lower(c),
{
    if 'A' <= c && c <= 'Z' {
        ((c as u8) + 32) as char
    } else {
        c
    }
}

/// Whether `needle` stands anywhere in `text`.
pub fn found_in(text: &Vec<char>, needle: &Vec<char>) -> (r: bool)
    ensures
        r == occurs(text@, needle@),
{
    let mut at: usize = 0;
    while at < text.len()
        invariant
            at <= text@.len(),
            forall|k: int| 0 <= k < at ==> !occurs_at(text@, needle@, k),
        decreases text@.len() - at,
    {
        if stands_at(text, needle, at) {
            return true;
        }
        at += 1;
    }
    stands_at(text, needle, at)
}

fn digit_text(n: u128) -> (r: &'static str)
    requires
        n < 10,
    ensures
        r@ == seq![digit(n as nat)],
{
    proof {
        reveal_strlit("0");
        reveal_strlit("1");
        reveal_strlit("2");
        reveal_strlit("3");
        reveal_strlit("4");
        reveal_strlit("5");
        reveal_strlit("6");
        reveal_strlit("7");
        reveal_strlit("8");
        reveal_strlit("9");
    }
    let r = match n {
        0 => "0",
        1 => "1",
        2 => "2",
        3 => "3",
        4 => "4",
        5 => "5",
        6 => "6",
        7 => "7",
        8 => "8",
        _ => "9",
    };
    assert(r@ =~= seq![digit(n as nat)]);
    r
}

/// Append the decimal rendering of a number.
pub fn append_decimal(out: &mut String, n: u64)
    ensures
        final(out)@ == old(out)@ + decimal(n as nat),
{
    append_wide_decimal(out, n as u128);
}

/// Append the decimal rendering of a number.
pub fn append_wide_decimal(out: &mut String, n: u128)
    ensures
        final(out)@ == old(out)@ + decimal(n as nat),
    decreases n,
{
    if n >= 10 {
        append_wide_decimal(out, n / 10);
    }
    out.append(digit_text(n % 10));
    proof {
        if n >= 10 {
            assert(old(out)@ + decimal(n as nat) =~= old(out)@ + decimal((n / 10) as nat) + seq![
                digit((n % 10) as nat),
            ]);
        }
    }
}

/// Whether a character has the Unicode property `White_Space`.
pub open spec fn is_white_space(c: char) -> bool {
    let u = c as u32;
    ||| 9 <= u <= 13
    ||| u == 0x20
    ||| u == 0x85
    ||| u == 0xA0
    ||| u == 0x1680
    ||| 0x2000 <= u <= 0x200A
    ||| u == 0x2028
    ||| u == 0x2029
    ||| u == 0x202F
    ||| u == 0x205F
    ||| u == 0x3000
}

/// The text without its leading white space.
pub open spec fn trim_start(t: Seq<char>) -> Seq<char>
    decreases t.len(),
{
    if t.len() > 0 && is_white_space(t[0]) {
        trim_start(t.drop_first())
    } else {
        t
    }
}

/// The text without its trailing white space.
pub open spec fn trim_end(t: Seq<char>) -> Seq<char>
    decreases t.len(),
{
    if t.len() > 0 && is_white_space(t.last()) {
        trim_end(t.drop_last())
    } else {
        t
    }
}

/// The text without the white space around it.
pub open spec fn trimmed(t: Seq<char>) -> Seq<char> {
    trim_end(trim_start(t))
}

fn white_space(c: char) -> (r: bool)
    ensures
        r == is_white_space(c),
{
    let u = c as u32;
    (9 <= u && u <= 13) || u == 0x20 || u == 0x85 || u == 0xA0 || u == 0x1680 || (0x2000 <= u && u
        <= 0x200A) || u == 0x2028 || u == 0x2029 || u == 0x202F || u == 0x205F || u == 0x3000
}

/// The characters of a text without the white space around it.
pub fn trimmed_chars(t: &Vec<char>) -> (r: Vec<char>)
    ensures
        r@ == trimmed(t@),
{
    let mut from: usize = 0;
    assert(t@.skip(0) =~= t@);
    while from < t.len() && white_space(t[from])
        invariant
            from <= t@.len(),
            trim_start(t@) == trim_start(t@.skip(from as int)),
        decreases t@.len() - from,
    {
        assert(t@.skip(from as int).drop_first() =~= t@.skip(from + 1));
        from += 1;
    }
    let ghost rest = t@.skip(from as int);
    assert(trim_start(t@) == rest);
    let mut to: usize = t.len();
    assert(t@.subrange(from as int, to as int) =~= rest);
    while to > from && white_space(t[to - 1])
        invariant
            from <= to <= t@.len(),
            rest == t@.skip(from as int),
            trim_end(rest) == trim_end(t@.subrange(from as int, to as int)),
        decreases to,
    {
        assert(t@.subrange(from as int, to as int).drop_last() =~= t@.subrange(
            from as int,
            to - 1,
        ));
        to -= 1;
    }
    let mut out: Vec<char> = Vec::new();
    let mut i: usize = from;
    while i < to
        invariant
            from <= i <= to <= t@.len(),
            out@ == t@.subrange(from as int, i as int),
        decreases to - i,
    {
        out.push(t[i]);
        assert(out@ =~= t@.subrange(from as int, i + 1));
        i += 1;
    }
    out
}

/// Whether characters are those of a text.
pub fn spells(t: &Vec<char>, s: &str) -> (r: bool)
    ensures
        r == (t@ == s@),
{
    let x = chars_of(s);
    if t.len() != x.len() {
        return false;
    }
    let r = stands_at(t, &x, 0);
    assert(t@.subrange(0, t@.len() as int) =~= t@);
    r
}

/// The longest prefix of a text that takes no more than `max_bytes` bytes in UTF-8.
pub open spec fn utf8_prefix(t: Seq<char>, max_bytes: nat) -> Seq<char>
    decreases t.len(),
{
    if t.len() == 0 || vstd::utf8::encode_utf8(t).len() <= max_bytes {
        t
    } else {
        utf8_prefix(t.drop_last(), max_bytes)
    }
}

proof fn lemma_encode_push(t: Seq<char>, c: char)
    ensures
        vstd::utf8::encode_utf8(t.push(c)).len() == vstd::utf8::encode_utf8(t).len()
            + vstd::utf8::encode_scalar(c as u32).len(),
    decreases t.len(),
{
    if t.len() == 0 {
        assert(t.push(c).drop_first() =~= Seq::<char>::empty());
        assert(vstd::utf8::encode_utf8(t.push(c).drop_first()).len() == 0);
    } else {
        assert(t.push(c).drop_first() =~= t.drop_first().push(c));
        lemma_encode_push(t.drop_first(), c);
    }
}

proof fn lemma_encode_prefix(t: Seq<char>, k: int)
    requires
        0 <= k <= t.len(),
    ensures
        vstd::utf8::encode_utf8(t.take(k)).len() <= vstd::utf8::encode_utf8(t).len(),
    decreases t.len(),
{
    if k < t.len() {
        assert(t =~= t.drop_last().push(t.last()));
        lemma_encode_push(t.drop_last(), t.last());
        lemma_encode_prefix(t.drop_last(), k);
        assert(t.drop_last().take(k) =~= t.take(k));
    } else {
        assert(t.take(k) =~= t);
    }
}

proof fn lemma_utf8_prefix(t: Seq<char>, max_bytes: nat, k: int)
    requires
        0 <= k <= t.len(),
        vstd::utf8::encode_utf8(t.take(k)).len() <= max_bytes,
        k == t.len() || vstd::utf8::encode_utf8(t.take(k + 1)).len() > max_bytes,
    ensures
        utf8_prefix(t, max_bytes) == t.take(k),
    decreases t.len(),
{
    if k == t.len() {
        assert(t.take(k) =~= t);
    } else {
        lemma_encode_prefix(t, k + 1);
        let u = t.drop_last();
        assert(u.take(k) =~= t.take(k));
        if k < u.len() {
            assert(u.take(k + 1) =~= t.take(k + 1));
        }
        lemma_utf8_prefix(u, max_bytes, k);
    }
}

/// A cut text takes no more than the allowed bytes and is a prefix of the whole.
pub proof fn law_cut_text_fits(t: Seq<char>, max_bytes: nat)
    ensures
        vstd::utf8::encode_utf8(utf8_prefix(t, max_bytes)).len() <= max_bytes,
        utf8_prefix(t, max_bytes) == t.take(utf8_prefix(t, max_bytes).len() as int),
        utf8_prefix(t, max_bytes).len() <= t.len(),
    decreases t.len(),
{
    if t.len() == 0 || vstd::utf8::encode_utf8(t).len() <= max_bytes {
        assert(t.take(t.len() as int) =~= t);
    } else {
        law_cut_text_fits(t.drop_last(), max_bytes);
        let n = utf8_prefix(t, max_bytes).len() as int;
        assert(t.drop_last().take(n) =~= t.take(n));
    }
}

fn char_width(c: char) -> (r: usize)
    ensures
        r == vstd::utf8::encode_scalar(c as u32).len(),
        1 <= r <= 4,
{
    let u = c as u32;
    if u <= 0x7F {
        1
    } else if u <= 0x7FF {
        2
    } else if u <= 0xFFFF {
        3
    } else {
        4
    }
}

/// Truncate a text to at most `max_bytes` bytes, moving the cut back to a character boundary.
pub fn truncate_to_utf8_boundary(s: &str, max_bytes: usize) -> (r: &str)
    ensures
        r@ == utf8_prefix(s@, max_bytes as nat),
{
    let t = chars_of(s);
    let mut used: usize = 0;
    let mut k: usize = 0;
    assert(t@.take(0) =~= Seq::<char>::empty());
    while k < t.len() && char_width(t[k]) <= max_bytes - used
        invariant
            t@ == s@,
            k <= t@.len(),
            used <= max_bytes,
            used == vstd::utf8::encode_utf8(t@.take(k as int)).len(),
        decreases t@.len() - k,
    {
        proof {
            assert(t@.take(k + 1) =~= t@.take(k as int).push(t@[k as int]));
            lemma_encode_push(t@.take(k as int), t@[k as int]);
        }
        used = used + char_width(t[k]);
        k += 1;
    }
    proof {
        if k < t@.len() {
            assert(t@.take(k + 1) =~= t@.take(k as int).push(t@[k as int]));
            lemma_encode_push(t@.take(k as int), t@[k as int]);
        }
        lemma_utf8_prefix(t@, max_bytes as nat, k as int);
    }
    s.substring_char(0, k)
}

/// Two texts are ordered by the first character in which they differ; a text comes before every
/// longer one that begins with it.
pub proof fn law_order_goes_by_the_first_difference(a: Seq<char>, b: Seq<char>)
    ensures
        text_lt(a, b) <==> exists|k: int|
            0 <= k <= a.len() && k < b.len() && (#[trigger] a.take(k)) == b.take(k) && (k
                == a.len() || a[k] < b[k]),
    decreases a.len(),
{
    if a.len() == 0 {
        if b.len() > 0 {
            assert(a.take(0) =~= b.take(0));
        }
    } else if b.len() > 0 {
        if a[0] != b[0] {
            assert(a.take(0) =~= b.take(0));
            if exists|k: int|
                0 <= k <= a.len() && k < b.len() && (#[trigger] a.take(k)) == b.take(k) && (k
                    == a.len() || a[k] < b[k]) {
                let k = choose|k: int|
                    0 <= k <= a.len() && k < b.len() && (#[trigger] a.take(k)) == b.take(k) && (k
                        == a.len() || a[k] < b[k]);
                if k > 0 {
                    assert(a.take(k)[0] == b.take(k)[0]);
                }
            }
        } else {
            let u = a.drop_first();
            let v = b.drop_first();
            law_order_goes_by_the_first_difference(u, v);
            if text_lt(u, v) {
                let k = choose|k: int|
                    0 <= k <= u.len() && k < v.len() && (#[trigger] u.take(k)) == v.take(k) && (k
                        == u.len() || u[k] < v[k]);
                assert(a.take(k + 1) =~= seq![a[0]] + u.take(k));
                assert(b.take(k + 1) =~= seq![b[0]] + v.take(k));
            }
            if exists|k: int|
                0 <= k <= a.len() && k < b.len() && (#[trigger] a.take(k)) == b.take(k) && (k
                    == a.len() || a[k] < b[k]) {
                let k = choose|k: int|
                    0 <= k <= a.len() && k < b.len() && (#[trigger] a.take(k)) == b.take(k) && (k
                        == a.len() || a[k] < b[k]);
                if k > 0 {
                    assert(u.take(k - 1) =~= a.take(k).drop_first());
                    assert(v.take(k - 1) =~= b.take(k).drop_first());
                }
            }
        }
    }
}

/// Lower case changes the letters from `A` to `Z` to their counterparts and nothing else.
pub proof fn law_lower_case_changes_ascii_letters_only(t: Seq<char>, i: int)
    requires
        0 <= i < t.len(),
    ensures
        lower(t).len() == t.len(),
        'A' <= t[i] <= 'Z' ==> lower(t)[i] as int == t[i] as int + ('a' as int - 'A' as int),
        !('A' <= t[i] <= 'Z') ==> lower(t)[i] == t[i],
{
    lemma_ascii_lower(t[i]);
}

proof fn lemma_ascii_lower(c: char)
    ensures
        'A' <= c <= 'Z' ==> ascii_lower(c) as int == c as int + 32,
        !('A' <= c <= 'Z') ==> ascii_lower(c) == c,
{
}

/// A needle stands at a position if and only if its characters are those from there on.
pub proof fn law_occurrence_is_character_by_character(t: Seq<char>, needle: Seq<char>, at: int)
    ensures
        occurs_at(t, needle, at) <==> 0 <= at && at + needle.len() <= t.len() && forall|i: int|
            0 <= i < needle.len() ==> t[at + i] == #[trigger] needle[i],
        begins_with(t, needle) <==> needle.len() <= t.len() && t.take(needle.len() as int)
            == needle,
        finishes_with(t, needle) <==> needle.len() <= t.len() && t.skip(t.len() - needle.len())
            == needle,
{
    if 0 <= at && at + needle.len() <= t.len() {
        let part = t.subrange(at, at + needle.len());
        if forall|i: int| 0 <= i < needle.len() ==> t[at + i] == #[trigger] needle[i] {
            assert(part =~= needle);
        }
        if part == needle {
            assert forall|i: int| 0 <= i < needle.len() implies t[at + i] == #[trigger] needle[
            i] by {
                assert(part[i] == t[at + i]);
            }
        }
    }
    if needle.len() <= t.len() {
        assert(t.subrange(0, needle.len() as int) =~= t.take(needle.len() as int));
        assert(t.subrange(t.len() - needle.len(), t.len() as int) =~= t.skip(
            t.len() - needle.len(),
        ));
    }
}

/// A decimal rendering consists of digits, has no leading zero, and reads back as the number.
pub proof fn law_decimal_reads_back(n: nat)
    ensures
        decimal(n).len() > 0,
        forall|i: int| 0 <= i < decimal(n).len() ==> '0' <= #[trigger] decimal(n)[i] <= '9',
        decimal(n).fold_left(0int, |read: int, c: char| 10 * read + (c as int - '0' as int)) == n,
        n > 0 ==> decimal(n)[0] != '0',
    decreases n,
{
    let f = |read: int, c: char| 10 * read + (c as int - '0' as int);
    if n < 10 {
        let d = decimal(n);
        assert(d.drop_last() =~= Seq::empty());
        assert(d.drop_last().fold_left(0int, f) == 0);
        assert(d.fold_left(0int, f) == f(0, d.last()));
    } else {
        law_decimal_reads_back(n / 10);
        let d = decimal(n);
        assert(d.drop_last() =~= decimal(n / 10));
        assert(d.last() == digit(n % 10));
        assert(d.fold_left(0int, f) == f(decimal(n / 10).fold_left(0int, f), d.last()));
    }
}

/// A trimmed text is the text without what stands before its first and behind its last character
/// that is no white space.
pub proof fn law_trimming_takes_white_space_only(t: Seq<char>)
    ensures
        exists|i: int, j: int|
            0 <= i <= j <= t.len() && trimmed(t) == #[trigger] t.subrange(i, j) && (forall|k: int|
                0 <= k < i || j <= k < t.len() ==> is_white_space(#[trigger] t[k])),
        trimmed(t).len() > 0 ==> !is_white_space(trimmed(t)[0]) && !is_white_space(
            trimmed(t).last(),
        ),
{
    lemma_trim_start(t);
    let s = trim_start(t);
    let i = t.len() - s.len();
    lemma_trim_end(s);
    let j = i + trim_end(s).len();
    assert(t.subrange(i, j) =~= trim_end(s));
    assert forall|k: int| 0 <= k < i || j <= k < t.len() implies is_white_space(
        #[trigger] t[k],
    ) by {
        if k >= j {
            assert(s[k - i] == t[k]);
        }
    }
}

proof fn lemma_trim_start(t: Seq<char>)
    ensures
        trim_start(t).len() <= t.len(),
        trim_start(t) == t.skip(t.len() - trim_start(t).len()),
        trim_start(t).len() > 0 ==> !is_white_space(trim_start(t)[0]),
        forall|k: int|
            0 <= k < t.len() - trim_start(t).len() ==> is_white_space(#[trigger] t[k]),
    decreases t.len(),
{
    if t.len() > 0 && is_white_space(t[0]) {
        let u = t.drop_first();
        lemma_trim_start(u);
        assert forall|k: int| 0 <= k < t.len() - trim_start(t).len() implies is_white_space(
            #[trigger] t[k],
        ) by {
            if k > 0 {
                assert(u[k - 1] == t[k]);
            }
        }
        assert(u.skip(u.len() - trim_start(u).len()) =~= t.skip(t.len() - trim_start(t).len()));
    } else {
        assert(t.skip(0) =~= t);
    }
}

proof fn lemma_trim_end(t: Seq<char>)
    ensures
        trim_end(t).len() <= t.len(),
        trim_end(t) == t.take(trim_end(t).len() as int),
        trim_end(t).len() > 0 ==> !is_white_space(trim_end(t).last()),
        forall|k: int| trim_end(t).len() <= k < t.len() ==> is_white_space(#[trigger] t[k]),
    decreases t.len(),
{
    if t.len() > 0 && is_white_space(t.last()) {
        let u = t.drop_last();
        lemma_trim_end(u);
        assert forall|k: int| trim_end(t).len() <= k < t.len() implies is_white_space(
            #[trigger] t[k],
        ) by {
            if k < u.len() {
                assert(u[k] == t[k]);
            }
        }
        assert(u.take(trim_end(u).len() as int) =~= t.take(trim_end(t).len() as int));
    } else {
        assert(t.take(t.len() as int) =~= t);
    }
}

/// Among the ASCII characters, white space is the blank and the controls from tab to carriage
/// return.
pub proof fn law_ascii_white_space(c: char)
    requires
        c as u32 <= 127,
    ensures
        is_white_space(c) <==> c == ' ' || c == '\n' || c == '\t' || c == '\r' || c as u32 == 11
            || c as u32 == 12,
{
}

/// A text is cut no earlier than it must be: one more character would take too many bytes.
pub proof fn law_cut_text_is_the_longest(t: Seq<char>, max_bytes: nat)
    ensures
        ({
            let n = utf8_prefix(t, max_bytes).len() as int;
            n < t.len() ==> vstd::utf8::encode_utf8(t.take(n + 1)).len() > max_bytes
        }),
    decreases t.len(),
{
    if !(t.len() == 0 || vstd::utf8::encode_utf8(t).len() <= max_bytes) {
        let u = t.drop_last();
        law_cut_text_is_the_longest(u, max_bytes);
        law_cut_text_fits(u, max_bytes);
        let n = utf8_prefix(t, max_bytes).len() as int;
        if n < u.len() {
            assert(u.take(n + 1) =~= t.take(n + 1));
        } else {
            assert(t.take(n + 1) =~= t);
        }
    }
}

} // verus!
