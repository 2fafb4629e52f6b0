//! Character classes and small string helpers shared by the parser and the renderers.
use vstd::prelude::*;

verus! {

/// Unicode `White_Space`: the characters that `\s`, `char::is_whitespace` and `str::trim` treat
/// as blank.
pub open spec fn is_space_spec(c: char) -> bool {
    let u = c as u32;
    (0x09 <= u && u <= 0x0d) || u == 0x20 || u == 0x85 || u == 0xa0 || u == 0x1680 || (0x2000 <= u
        && u <= 0x200a) || u == 0x2028 || u == 0x2029 || u == 0x202f || u == 0x205f || u == 0x3000
}

/// The four ASCII blanks trimmed by the ASCII-only policy.
pub open spec fn is_ascii_blank_spec(c: char) -> bool {
    c == ' ' || c == '\t' || c == '\r' || c == '\n'
}

/// `[A-Za-z0-9_]`: the characters of command names, tag names and character IDs.
pub open spec fn is_word_spec(c: char) -> bool {
    ('a' <= c && c <= 'z') || ('A' <= c && c <= 'Z') || ('0' <= c && c <= '9') || c == '_'
}

/// `[A-Fa-f0-9]`.
pub open spec fn is_hex_spec(c: char) -> bool {
    ('a' <= c && c <= 'f') || ('A' <= c && c <= 'F') || ('0' <= c && c <= '9')
}

pub fn is_space(c: char) -> (r: bool)
    ensures
        r == is_space_spec(c),
{
    let u = c as u32;
    (0x09 <= u && u <= 0x0d) || u == 0x20 || u == 0x85 || u == 0xa0 || u == 0x1680 || (0x2000 <= u
        && u <= 0x200a) || u == 0x2028 || u == 0x2029 || u == 0x202f || u == 0x205f || u == 0x3000
}

pub fn is_ascii_blank(c: char) -> (r: bool)
    ensures
        r == is_ascii_blank_spec(c),
{
    c == ' ' || c == '\t' || c == '\r' || c == '\n'
}

pub fn is_word(c: char) -> (r: bool)
    ensures
        r == is_word_spec(c),
{
    ('a' <= c && c <= 'z') || ('A' <= c && c <= 'Z') || ('0' <= c && c <= '9') || c == '_'
}

pub fn is_hex(c: char) -> (r: bool)
    ensures
        r == is_hex_spec(c),
{
    ('a' <= c && c <= 'f') || ('A' <= c && c <= 'F') || ('0' <= c && c <= '9')
}

/// The index of the first character at or after `i` that is not a word character.
pub open spec fn word_end(l: Seq<char>, i: int) -> int
    decreases l.len() - i,
{
    if 0 <= i < l.len() && is_word_spec(l[i]) {
        word_end(l, i + 1)
    } else {
        i
    }
}

/// The index of the first character at or after `i` that is not blank.
pub open spec fn space_end(l: Seq<char>, i: int) -> int
    decreases l.len() - i,
{
    if 0 <= i < l.len() && is_space_spec(l[i]) {
        space_end(l, i + 1)
    } else {
        i
    }
}

pub proof fn lemma_word_end_bounds(l: Seq<char>, i: int)
    requires
        0 <= i <= l.len(),
    ensures
        i <= word_end(l, i) <= l.len(),
        forall|k: int| i <= k < word_end(l, i) ==> is_word_spec(#[trigger] l[k]),
        word_end(l, i) < l.len() ==> !is_word_spec(l[word_end(l, i)]),
    decreases l.len() - i,
{
    if i < l.len() && is_word_spec(l[i]) {
        lemma_word_end_bounds(l, i + 1);
    }
}

pub proof fn lemma_space_end_bounds(l: Seq<char>, i: int)
    requires
        0 <= i <= l.len(),
    ensures
        i <= space_end(l, i) <= l.len(),
    decreases l.len() - i,
{
    if i < l.len() && is_space_spec(l[i]) {
        lemma_space_end_bounds(l, i + 1);
    }
}

pub fn find_word_end(l: &Vec<char>, i: usize) -> (r: usize)
    requires
        i <= l@.len(),
    ensures
        r == word_end(l@, i as int),
{
    let mut j = i;
    while j < l.len() && is_word(l[j])
        invariant
            i <= j <= l@.len(),
            word_end(l@, i as int) == word_end(l@, j as int),
        decreases l@.len() - j,
    {
        j = j + 1;
    }
    j
}

pub fn find_space_end(l: &Vec<char>, i: usize) -> (r: usize)
    requires
        i <= l@.len(),
    ensures
        r == space_end(l@, i as int),
{
    let mut j = i;
    while j < l.len() && is_space(l[j])
        invariant
            i <= j <= l@.len(),
            space_end(l@, i as int) == space_end(l@, j as int),
        decreases l@.len() - j,
    {
        j = j + 1;
    }
    j
}

/// The decimal digit for `d < 10`.
pub open spec fn digit_char(d: nat) -> char {
    if d == 0 { '0' }
    else if d == 1 { '1' }
    else if d == 2 { '2' }
    else if d == 3 { '3' }
    else if d == 4 { '4' }
    else if d == 5 { '5' }
    else if d == 6 { '6' }
    else if d == 7 { '7' }
    else if d == 8 { '8' }
    else { '9' }
}

/// The decimal notation of `n`, without leading zeros.
pub open spec fn decimal(n: nat) -> Seq<char>
    decreases n,
{
    if n < 10 {
        seq![digit_char(n)]
    } else {
        decimal(n / 10).push(digit_char(n % 10))
    }
}

fn digit(d: usize) -> (c: char)
    requires
        d < 10,
    ensures
        c == digit_char(d as nat),
{
    if d == 0 { '0' }
    else if d == 1 { '1' }
    else if d == 2 { '2' }
    else if d == 3 { '3' }
    else if d == 4 { '4' }
    else if d == 5 { '5' }
    else if d == 6 { '6' }
    else if d == 7 { '7' }
    else if d == 8 { '8' }
    else { '9' }
}

/// Appends the decimal notation of `n`.
pub fn push_decimal(out: &mut String, n: usize)
    ensures
        final(out)@ == old(out)@ + decimal(n as nat),
    decreases n,
{
    if n >= 10 {
        push_decimal(out, n / 10);
    }
    push_char(out, digit(n % 10));
    proof {
        assert(old(out)@ + decimal(n as nat) =~= old(out)@ + (if n < 10 {
            Seq::<char>::empty()
        } else {
            decimal((n / 10) as nat)
        }) + seq![digit_char((n % 10) as nat)]);
    }
}

/// Relies on `String::push`: appends one character.
#[verifier::external_body]
pub(crate) fn push_char(s: &mut String, c: char)
    ensures
        final(s)@ == old(s)@.push(c),
{
    s.push(c)
}

/// Appends `v[from..to]`.
pub fn push_chars(out: &mut String, v: &Vec<char>, from: usize, to: usize)
    requires
        from <= to <= v@.len(),
    ensures
        final(out)@ == old(out)@ + v@.subrange(from as int, to as int),
{
    let mut i = from;
    while i < to
        invariant
            from <= i <= to <= v@.len(),
            out@ == old(out)@ + v@.subrange(from as int, i as int),
        decreases to - i,
    {
        push_char(out, v[i]);
        i = i + 1;
        assert(v@.subrange(from as int, i as int) =~= v@.subrange(from as int, i - 1).push(
            v@[i - 1],
        ));
        assert(out@ =~= old(out)@ + v@.subrange(from as int, i as int));
    }
}

/// A new string holding `v[from..to]`.
pub fn string_of(v: &Vec<char>, from: usize, to: usize) -> (r: String)
    requires
        from <= to <= v@.len(),
    ensures
        r@ == v@.subrange(from as int, to as int),
{
    let mut s = String::new();
    push_chars(&mut s, v, from, to);
    assert(s@ =~= v@.subrange(from as int, to as int));
    s
}

/// A new vector holding `v[from..to]`.
pub fn slice_of(v: &Vec<char>, from: usize, to: usize) -> (r: Vec<char>)
    requires
        from <= to <= v@.len(),
    ensures
        r@ == v@.subrange(from as int, to as int),
{
    let mut r: Vec<char> = Vec::new();
    let mut i = from;
    while i < to
        invariant
            from <= i <= to <= v@.len(),
            r@ == v@.subrange(from as int, i as int),
        decreases to - i,
    {
        r.push(v[i]);
        i = i + 1;
        assert(r@ =~= v@.subrange(from as int, i as int));
    }
    r
}

/// The characters of `s`, in order.
pub fn chars_of(s: &str) -> (r: Vec<char>)
    ensures
        r@ == s@,
{
    let mut r: Vec<char> = Vec::new();
    for c in it: s.chars()
        invariant
            r@ == it.seq().subrange(0, it.index() as int),
            it.seq() == s@,
    {
        r.push(c);
    }
    assert(r@ =~= s@);
    r
}

/// Whether `v` holds exactly the characters of `lit`.
pub fn is_text(v: &Vec<char>, lit: &str) -> (r: bool)
    ensures
        r == (v@ == lit@),
{
    let n = lit.unicode_len();
    if n != v.len() {
        return false;
    }
    let mut i: usize = 0;
    while i < n
        invariant
            n == v@.len() == lit@.len(),
            i <= n,
            v@.subrange(0, i as int) == lit@.subrange(0, i as int),
        decreases n - i,
    {
        if lit.get_char(i) != v[i] {
            return false;
        }
        i = i + 1;
        assert(v@.subrange(0, i as int) =~= v@.subrange(0, i - 1).push(v@[i - 1]));
        assert(lit@.subrange(0, i as int) =~= lit@.subrange(0, i - 1).push(lit@[i - 1]));
    }
    assert(v@ =~= v@.subrange(0, n as int));
    assert(lit@ =~= lit@.subrange(0, n as int));
    true
}

/// Whether two character vectors hold the same characters.
pub fn same_chars(a: &Vec<char>, b: &Vec<char>) -> (r: bool)
    ensures
        r == (a@ == b@),
{
    if a.len() != b.len() {
        return false;
    }
    let mut i: usize = 0;
    while i < a.len()
        invariant
            a@.len() == b@.len(),
            i <= a@.len(),
            a@.subrange(0, i as int) == b@.subrange(0, i as int),
        decreases a@.len() - i,
    {
        if a[i] != b[i] {
            return false;
        }
        i = i + 1;
        assert(a@.subrange(0, i as int) =~= a@.subrange(0, i - 1).push(a@[i - 1]));
        assert(b@.subrange(0, i as int) =~= b@.subrange(0, i - 1).push(b@[i - 1]));
    }
    assert(a@ =~= a@.subrange(0, i as int));
    assert(b@ =~= b@.subrange(0, i as int));
    true
}

/// Strict lexicographic order on character sequences, by code point.
pub open spec fn text_lt(a: Seq<char>, b: Seq<char>) -> bool
    decreases a.len(),
{
    if a.len() == 0 {
        b.len() > 0
    } else if b.len() == 0 {
        false
    } else if a[0] != b[0] {
        (a[0] as u32) < (b[0] as u32)
    } else {
        text_lt(a.drop_first(), b.drop_first())
    }
}

pub proof fn lemma_text_lt_irreflexive(a: Seq<char>)
    ensures
        !text_lt(a, a),
    decreases a.len(),
{
    if a.len() > 0 {
        lemma_text_lt_irreflexive(a.drop_first());
    }
}

pub proof fn lemma_text_lt_transitive(a: Seq<char>, b: Seq<char>, c: Seq<char>)
    requires
        text_lt(a, b),
        text_lt(b, c),
    ensures
        text_lt(a, c),
    decreases a.len(),
{
    if a.len() > 0 && b.len() > 0 && c.len() > 0 {
        if a[0] == b[0] && b[0] == c[0] {
            lemma_text_lt_transitive(a.drop_first(), b.drop_first(), c.drop_first());
        }
    }
}

pub proof fn lemma_text_lt_total(a: Seq<char>, b: Seq<char>)
    requires
        a != b,
    ensures
        text_lt(a, b) || text_lt(b, a),
    decreases a.len(),
{
    if a.len() == 0 && b.len() == 0 {
        assert(a =~= b);
    } else if a.len() > 0 && b.len() > 0 && a[0] == b[0] {
        assert(a =~= seq![a[0]] + a.drop_first());
        assert(b =~= seq![b[0]] + b.drop_first());
        lemma_text_lt_total(a.drop_first(), b.drop_first());
    } else if a.len() > 0 && b.len() > 0 {
        vstd::utf8::char_u32_cast(a[0], a[0] as u32);
        vstd::utf8::char_u32_cast(b[0], b[0] as u32);
    }
}

pub proof fn lemma_text_lt_asymmetric(a: Seq<char>, b: Seq<char>)
    requires
        text_lt(a, b),
    ensures
        !text_lt(b, a),
{
    if text_lt(b, a) {
        lemma_text_lt_transitive(a, b, a);
        lemma_text_lt_irreflexive(a);
    }
}

/// Compares two character sequences in the order of `text_lt`.
pub fn less_than(a: &Vec<char>, b: &Vec<char>) -> (r: bool)
    ensures
        r == text_lt(a@, b@),
{
    let mut i: usize = 0;
    assert(a@.subrange(0, a@.len() as int) =~= a@);
    assert(b@.subrange(0, b@.len() as int) =~= b@);
    while i < a.len() && i < b.len() && a[i] == b[i]
        invariant
            i <= a@.len(),
            i <= b@.len(),
            a@.subrange(0, i as int) == b@.subrange(0, i as int),
            text_lt(a@, b@) == text_lt(a@.subrange(i as int, a@.len() as int), b@.subrange(i as int, b@.len() as int)),
        decreases a@.len() - i,
    {
        proof {
            let sa = a@.subrange(i as int, a@.len() as int);
            let sb = b@.subrange(i as int, b@.len() as int);
            assert(sa.drop_first() =~= a@.subrange(i + 1, a@.len() as int));
            assert(sb.drop_first() =~= b@.subrange(i + 1, b@.len() as int));
            assert(a@.subrange(0, i + 1) =~= a@.subrange(0, i as int).push(a@[i as int]));
            assert(b@.subrange(0, i + 1) =~= b@.subrange(0, i as int).push(b@[i as int]));
        }
        i = i + 1;
    }
    if i < a.len() && i < b.len() {
        (a[i] as u32) < (b[i] as u32)
    } else {
        i == a.len() && i < b.len()
    }
}

} // verus!
