//! Texts as sequences of characters: decimal numbers, padding, joining,
//! trimming, line splitting and ordering.
use vstd::prelude::*;
use vstd::string::*;
use vstd::utf8::*;

verus! {

/// `String::push` appends one character at the end.
pub assume_specification[ String::push ](s: &mut String, c: char)
    ensures
        final(s)@ == old(s)@.push(c),
;

/// `String::from_utf8` accepts exactly the valid UTF-8 byte sequences and hands
/// back the text that they encode.
#[verifier::external_body]
pub(crate) fn text_from_utf8(bytes: Vec<u8>) -> (res: Option<String>)
    ensures
        res is Some <==> valid_utf8(bytes@),
        res matches Some(text) ==> text@ == decode_utf8(bytes@),
{
    String::from_utf8(bytes).ok()
}

/// The number of bytes of a text in UTF-8.
pub open spec fn byte_len(s: Seq<char>) -> nat {
    encode_utf8(s).len()
}

/// A text has at least as many bytes as characters.
pub proof fn lemma_byte_len_at_least(s: Seq<char>)
    ensures
        s.len() <= byte_len(s),
    decreases s.len(),
{
    if s.len() > 0 {
        lemma_byte_len_at_least(s.drop_first());
    }
}

/// The views of a list of texts.
pub open spec fn texts(v: Seq<String>) -> Seq<Seq<char>> {
    v.map_values(|s: String| s@)
}

/// The view of an optional text.
pub open spec fn opt_text(o: Option<String>) -> Option<Seq<char>> {
    match o {
        Some(s) => Some(s@),
        None => None,
    }
}

/// The characters of a text, in order.
pub fn chars_of(s: &str) -> (v: Vec<char>)
    ensures
        v@ == s@,
{
    let mut v: Vec<char> = Vec::new();
    for c in it: s.chars()
        invariant
            v@ == it.seq().take(it.index()),
            it.seq() == s@,
    {
        v.push(c);
    }
    v
}

/// The text made of the characters from `lo` up to `hi`.
pub fn text_of(v: &Vec<char>, lo: usize, hi: usize) -> (s: String)
    requires
        lo <= hi <= v@.len(),
    ensures
        s@ == v@.subrange(lo as int, hi as int),
{
    let mut s = String::new();
    let mut i: usize = lo;
    while i < hi
        invariant
            lo <= i <= hi <= v@.len(),
            s@ == v@.subrange(lo as int, i as int),
        decreases hi - i,
    {
        s.push(v[i]);
        i += 1;
        assert(s@ =~= v@.subrange(lo as int, i as int));
    }
    s
}

/// Whether two texts hold the same characters.
pub fn same_text(a: &str, b: &str) -> (r: bool)
    ensures
        r == (a@ == b@),
{
    let x: &[u8] = a.as_bytes();
    let y: &[u8] = b.as_bytes();
    proof {
        encode_utf8_decode_utf8(a@);
        encode_utf8_decode_utf8(b@);
    }
    if x.len() != y.len() {
        return false;
    }
    let mut i: usize = 0;
    while i < x.len()
        invariant
            i <= x.len(),
            x.len() == y.len(),
            x@ == a.spec_bytes(),
            y@ == b.spec_bytes(),
            forall|j: int| 0 <= j < i ==> x@[j] == y@[j],
        decreases x.len() - i,
    {
        if x[i] != y[i] {
            return false;
        }
        i += 1;
    }
    assert(x@ =~= y@);
    true
}

/// Whether an optional text holds exactly the given characters.
pub fn opt_text_is(a: &Option<String>, b: &str) -> (r: bool)
    ensures
        r == (opt_text(*a) == Some(b@)),
{
    match a {
        Some(text) => same_text(text.as_str(), b),
        None => false,
    }
}

/// The number of bytes of a text, read from its UTF-8 form.
pub fn size_of_text(s: &str) -> (n: usize)
    ensures
        n == byte_len(s@),
{
    s.as_bytes().len()
}

/// Two texts one after the other.
pub fn concat(a: &str, b: &str) -> (s: String)
    ensures
        s@ == a@ + b@,
{
    let mut s = a.to_owned();
    s.append(b);
    s
}

/// Three texts one after the other.
pub fn concat3(a: &str, b: &str, c: &str) -> (s: String)
    ensures
        s@ == a@ + b@ + c@,
{
    let mut s = a.to_owned();
    s.append(b);
    s.append(c);
    s
}

// ---------------------------------------------------------------------------
// Decimal numbers
// ---------------------------------------------------------------------------

/// The character of one decimal digit.
pub open spec fn digit(d: int) -> char {
    (48 + d) as char
}

/// A natural number in decimal, without leading zeros.
pub open spec fn decimal(n: nat) -> Seq<char>
    decreases n,
{
    if n < 10 {
        seq![digit(n as int)]
    } else {
        decimal(n / 10).push(digit((n % 10) as int))
    }
}

/// An integer in decimal, with a minus sign where it is negative.
pub open spec fn signed_decimal(i: int) -> Seq<char> {
    if i < 0 {
        seq!['-'] + decimal((-i) as nat)
    } else {
        decimal(i as nat)
    }
}

/// A natural number in decimal.
pub fn decimal_text(n: u64) -> (s: String)
    ensures
        s@ == decimal(n as nat),
    decreases n,
{
    if n < 10 {
        let mut s = String::new();
        s.push((48u8 + n as u8) as char);
        assert(s@ =~= decimal(n as nat));
        s
    } else {
        let mut s = decimal_text(n / 10);
        s.push((48u8 + (n % 10) as u8) as char);
        s
    }
}

/// An integer in decimal.
pub fn signed_decimal_text(i: i64) -> (s: String)
    ensures
        s@ == signed_decimal(i as int),
{
    if i < 0 {
        let magnitude: u64 = (-(i + 1)) as u64 + 1;
        let mut s = String::new();
        s.push('-');
        s.append(decimal_text(magnitude).as_str());
        assert(s@ =~= signed_decimal(i as int));
        s
    } else {
        decimal_text(i as u64)
    }
}

// ---------------------------------------------------------------------------
// Repetition, padding, joining
// ---------------------------------------------------------------------------

/// One character, `n` times.
pub open spec fn repeated(c: char, n: nat) -> Seq<char> {
    Seq::new(n, |i: int| c)
}

/// One character, `n` times.
pub fn repeated_text(c: char, n: usize) -> (s: String)
    ensures
        s@ == repeated(c, n as nat),
{
    let mut s = String::new();
    let mut i: usize = 0;
    while i < n
        invariant
            i <= n,
            s@ == repeated(c, i as nat),
        decreases n - i,
    {
        s.push(c);
        i += 1;
        assert(s@ =~= repeated(c, i as nat));
    }
    assert(s@ =~= repeated(c, n as nat));
    s
}

/// The number of spaces that bring `len` characters up to `width`.
pub open spec fn missing_width(len: nat, width: nat) -> nat {
    if len < width {
        (width - len) as nat
    } else {
        0
    }
}

/// A text filled up with spaces on its right.
pub open spec fn padded_right(s: Seq<char>, width: nat) -> Seq<char> {
    s + repeated(' ', missing_width(s.len(), width))
}

/// A text filled up with spaces on its left.
pub open spec fn padded_left(s: Seq<char>, width: nat) -> Seq<char> {
    repeated(' ', missing_width(s.len(), width)) + s
}

fn fill(s: &str, width: usize) -> (f: String)
    ensures
        f@ == repeated(' ', missing_width(s@.len(), width as nat)),
{
    let len: usize = s.unicode_len();
    if len < width {
        repeated_text(' ', width - len)
    } else {
        repeated_text(' ', 0)
    }
}

/// A text filled up with spaces on its right.
pub fn pad_right(s: &str, width: usize) -> (p: String)
    ensures
        p@ == padded_right(s@, width as nat),
{
    concat(s, fill(s, width).as_str())
}

/// A text filled up with spaces on its left.
pub fn pad_left(s: &str, width: usize) -> (p: String)
    ensures
        p@ == padded_left(s@, width as nat),
{
    concat(fill(s, width).as_str(), s)
}

/// Texts in a row with a separator between neighbours.
pub open spec fn joined(parts: Seq<Seq<char>>, sep: Seq<char>) -> Seq<char>
    decreases parts.len(),
{
    if parts.len() == 0 {
        Seq::empty()
    } else if parts.len() == 1 {
        parts[0]
    } else {
        joined(parts.drop_last(), sep) + sep + parts.last()
    }
}

/// Texts in a row with a separator between neighbours.
pub fn join(parts: &Vec<String>, sep: &str) -> (s: String)
    ensures
        s@ == joined(texts(parts@), sep@),
{
    let mut s = String::new();
    let mut i: usize = 0;
    let ghost all = texts(parts@);
    while i < parts.len()
        invariant
            i <= parts@.len(),
            all == texts(parts@),
            s@ == joined(all.take(i as int), sep@),
        decreases parts@.len() - i,
    {
        if i > 0 {
            s.append(sep);
        }
        s.append(parts[i].as_str());
        i += 1;
        assert(all.take(i as int).drop_last() =~= all.take(i - 1));
        assert(all.take(i as int).last() == parts@[i - 1]@);
        assert(s@ =~= joined(all.take(i as int), sep@));
    }
    assert(all.take(i as int) =~= all);
    s
}

// ---------------------------------------------------------------------------
// Prefixes, suffixes, contents
// ---------------------------------------------------------------------------

/// Whether `s` starts with `p`.
pub open spec fn begins_with(s: Seq<char>, p: Seq<char>) -> bool {
    p.len() <= s.len() && s.take(p.len() as int) == p
}

/// Whether `s` ends with `p`.
pub open spec fn finishes_with(s: Seq<char>, p: Seq<char>) -> bool {
    p.len() <= s.len() && s.skip(s.len() - p.len()) == p
}

/// Whether `p` stands in `s` from position `i` on.
pub open spec fn stands_at(s: Seq<char>, p: Seq<char>, i: int) -> bool {
    0 <= i && i + p.len() <= s.len() && s.subrange(i, i + p.len()) == p
}

/// Whether `p` stands anywhere in `s`.
pub open spec fn holds_text(s: Seq<char>, p: Seq<char>) -> bool {
    exists|i: int| stands_at(s, p, i)
}

/// Whether `p` stands in `s` from position `i` on.
pub fn text_stands_at(s: &Vec<char>, p: &Vec<char>, i: usize) -> (r: bool)
    ensures
        r == stands_at(s@, p@, i as int),
{
    if p.len() > s.len() || i > s.len() - p.len() {
        return false;
    }
    let mut k: usize = 0;
    while k < p.len()
        invariant
            k <= p@.len(),
            i + p.len() <= s.len(),
            forall|j: int| 0 <= j < k ==> s@[i + j] == p@[j],
        decreases p@.len() - k,
    {
        if s[i + k] != p[k] {
            assert(s@.subrange(i as int, i + p@.len())[k as int] != p@[k as int]);
            return false;
        }
        k += 1;
    }
    assert(s@.subrange(i as int, i + p@.len()) =~= p@);
    true
}

/// Whether `s` starts with `p`.
pub fn text_begins_with(s: &str, p: &str) -> (r: bool)
    ensures
        r == begins_with(s@, p@),
{
    let sv = chars_of(s);
    let pv = chars_of(p);
    let r = text_stands_at(&sv, &pv, 0);
    assert(p@.len() <= s@.len() ==> s@.take(p@.len() as int) =~= s@.subrange(0, p@.len() as int));
    r
}

/// Whether `s` ends with `p`.
pub fn text_finishes_with(s: &str, p: &str) -> (r: bool)
    ensures
        r == finishes_with(s@, p@),
{
    let sv = chars_of(s);
    let pv = chars_of(p);
    if pv.len() > sv.len() {
        return false;
    }
    let at: usize = sv.len() - pv.len();
    assert(s@.skip(at as int) =~= s@.subrange(at as int, at + p@.len()));
    text_stands_at(&sv, &pv, at)
}

/// Whether `p` stands anywhere in `s`.
pub fn text_holds(s: &str, p: &str) -> (r: bool)
    ensures
        r == holds_text(s@, p@),
{
    let sv = chars_of(s);
    let pv = chars_of(p);
    let mut i: usize = 0;
    while i < sv.len()
        invariant
            i <= sv@.len(),
            sv@ == s@,
            pv@ == p@,
            forall|j: int| 0 <= j < i ==> !stands_at(s@, p@, j),
        decreases sv@.len() - i,
    {
        if text_stands_at(&sv, &pv, i) {
            return true;
        }
        i += 1;
    }
    let r = text_stands_at(&sv, &pv, i);
    assert forall|j: int| j > s@.len() implies !stands_at(s@, p@, j) by {}
    r
}

// ---------------------------------------------------------------------------
// White space
// ---------------------------------------------------------------------------

/// The characters that Unicode calls white space.
pub open spec fn is_space(c: char) -> bool {
    let u = c as u32;
    ||| 0x9 <= u <= 0xd
    ||| u == 0x20
    ||| u == 0x85
    ||| u == 0xa0
    ||| u == 0x1680
    ||| 0x2000 <= u <= 0x200a
    ||| u == 0x2028
    ||| u == 0x2029
    ||| u == 0x202f
    ||| u == 0x205f
    ||| u == 0x3000
}

/// Whether a character is white space.
pub fn char_is_space(c: char) -> (r: bool)
    ensures
        r == is_space(c),
{
    let u: u32 = c as u32;
    (0x9 <= u && u <= 0xd) || u == 0x20 || u == 0x85 || u == 0xa0 || u == 0x1680 || (0x2000 <= u
        && u <= 0x200a) || u == 0x2028 || u == 0x2029 || u == 0x202f || u == 0x205f || u == 0x3000
}

/// A text without the white space at its start.
pub open spec fn trimmed_start(s: Seq<char>) -> Seq<char>
    decreases s.len(),
{
    if s.len() > 0 && is_space(s[0]) {
        trimmed_start(s.drop_first())
    } else {
        s
    }
}

/// A text without the white space at its end.
pub open spec fn trimmed_end(s: Seq<char>) -> Seq<char>
    decreases s.len(),
{
    if s.len() > 0 && is_space(s.last()) {
        trimmed_end(s.drop_last())
    } else {
        s
    }
}

/// A text without the white space at either end.
pub open spec fn trimmed(s: Seq<char>) -> Seq<char> {
    trimmed_end(trimmed_start(s))
}

/// A text without the white space at either end.
pub fn trim(s: &str) -> (t: String)
    ensures
        t@ == trimmed(s@),
{
    let v = chars_of(s);
    let mut lo: usize = 0;
    assert(v@.skip(0) =~= v@);
    while lo < v.len() && char_is_space(v[lo])
        invariant
            lo <= v@.len(),
            trimmed_start(v@) == trimmed_start(v@.skip(lo as int)),
        decreases v@.len() - lo,
    {
        assert(v@.skip(lo as int).drop_first() =~= v@.skip(lo + 1));
        lo += 1;
    }
    let mut hi: usize = v.len();
    let ghost front = v@.skip(lo as int);
    assert(front == trimmed_start(v@));
    assert(v@.subrange(lo as int, hi as int) =~= front);
    while hi > lo && char_is_space(v[hi - 1])
        invariant
            lo <= hi <= v@.len(),
            trimmed_end(front) == trimmed_end(v@.subrange(lo as int, hi as int)),
        decreases hi,
    {
        assert(v@.subrange(lo as int, hi as int).drop_last() =~= v@.subrange(lo as int, hi - 1));
        hi -= 1;
    }
    let t = text_of(&v, lo, hi);
    assert(t@ == trimmed_end(v@.subrange(lo as int, hi as int)));
    t
}

// ---------------------------------------------------------------------------
// Lines
// ---------------------------------------------------------------------------

/// The position of the first `c` in `s`, or the length of `s` where there is none.
pub open spec fn position_of(s: Seq<char>, c: char) -> nat
    decreases s.len(),
{
    if s.len() == 0 || s[0] == c {
        0
    } else {
        1 + position_of(s.drop_first(), c)
    }
}

pub proof fn lemma_position_of(s: Seq<char>, c: char)
    ensures
        position_of(s, c) <= s.len(),
        position_of(s, c) < s.len() ==> s[position_of(s, c) as int] == c,
        forall|j: int| 0 <= j < position_of(s, c) ==> s[j] != c,
    decreases s.len(),
{
    if s.len() > 0 && s[0] != c {
        lemma_position_of(s.drop_first(), c);
        assert forall|j: int| 0 <= j < position_of(s, c) implies s[j] != c by {
            if j > 0 {
                assert(s.drop_first()[j - 1] == s[j]);
            }
        }
    }
}

pub proof fn lemma_position_unique(s: Seq<char>, c: char, i: int)
    requires
        0 <= i <= s.len(),
        forall|j: int| 0 <= j < i ==> s[j] != c,
        i < s.len() ==> s[i] == c,
    ensures
        position_of(s, c) == i,
{
    lemma_position_of(s, c);
    let p = position_of(s, c) as int;
    if p < i {
        assert(s[p] != c);
    }
}

/// A line without the carriage return that ends it.
pub open spec fn without_return(s: Seq<char>) -> Seq<char> {
    if s.len() > 0 && s.last() == '\r' {
        s.drop_last()
    } else {
        s
    }
}

/// The lines of a text. A line ends at a line feed, or at a carriage return and a
/// line feed; the last line may lack its end.
pub open spec fn lines_of(s: Seq<char>) -> Seq<Seq<char>>
    decreases s.len(),
    via lines_of_decreases
{
    let i = position_of(s, '\n') as int;
    if s.len() == 0 {
        Seq::empty()
    } else if i == s.len() {
        seq![s]
    } else {
        seq![without_return(s.take(i))] + lines_of(s.skip(i + 1))
    }
}

#[via_fn]
proof fn lines_of_decreases(s: Seq<char>) {
    lemma_position_of(s, '\n');
}

/// The lines of a text.
pub fn lines(s: &str) -> (res: Vec<String>)
    ensures
        texts(res@) == lines_of(s@),
{
    let v = chars_of(s);
    let mut res: Vec<String> = Vec::new();
    let mut start: usize = 0;
    assert(v@.skip(0) =~= v@);
    assert(texts(res@) + lines_of(v@.skip(0)) =~= lines_of(v@));
    while start < v.len()
        invariant
            start <= v@.len(),
            v@ == s@,
            texts(res@) + lines_of(v@.skip(start as int)) == lines_of(v@),
        decreases v@.len() - start,
    {
        let mut end: usize = start;
        while end < v.len() && v[end] != '\n'
            invariant
                start <= end <= v@.len(),
                forall|j: int| start <= j < end ==> v@[j] != '\n',
            decreases v@.len() - end,
        {
            end += 1;
        }
        let ghost rest = v@.skip(start as int);
        let ghost before = texts(res@);
        proof {
            assert forall|j: int| 0 <= j < end - start implies rest[j] != '\n' by {
                assert(rest[j] == v@[start + j]);
            }
            lemma_position_unique(rest, '\n', end - start);
        }
        if end == v.len() {
            res.push(text_of(&v, start, end));
            assert(v@.subrange(start as int, end as int) =~= rest);
            assert(texts(res@) =~= before + seq![rest]);
            assert(v@.skip(end as int) =~= Seq::empty());
            assert(texts(res@) + lines_of(v@.skip(end as int)) =~= lines_of(v@));
            start = end;
        } else {
            let stop: usize = if end > start && v[end - 1] == '\r' {
                end - 1
            } else {
                end
            };
            res.push(text_of(&v, start, stop));
            assert(rest.take(end - start) =~= v@.subrange(start as int, end as int));
            assert(v@.subrange(start as int, stop as int) =~= without_return(
                rest.take(end - start),
            ));
            assert(texts(res@) =~= before + seq![without_return(rest.take(end - start))]);
            assert(rest.skip(end - start + 1) =~= v@.skip(end + 1));
            assert(texts(res@) + lines_of(v@.skip(end + 1)) =~= before + lines_of(rest));
            start = end + 1;
        }
    }
    assert(v@.skip(start as int) =~= Seq::empty());
    assert(texts(res@) =~= lines_of(v@));
    res
}

// ---------------------------------------------------------------------------
// Order
// ---------------------------------------------------------------------------

/// Whether `a` comes before `b`, character by character in code point order.
pub open spec fn text_before(a: Seq<char>, b: Seq<char>) -> bool
    decreases a.len(),
{
    if b.len() == 0 {
        false
    } else if a.len() == 0 {
        true
    } else if a[0] != b[0] {
        (a[0] as u32) < (b[0] as u32)
    } else {
        text_before(a.drop_first(), b.drop_first())
    }
}

proof fn lemma_char_code(x: char, y: char)
    ensures
        x as u32 == y as u32 ==> x == y,
{
}

/// Two different texts come in exactly one order.
pub proof fn lemma_text_before_total(a: Seq<char>, b: Seq<char>)
    ensures
        text_before(a, b) || text_before(b, a) || a == b,
        !(text_before(a, b) && text_before(b, a)),
        a == b ==> !text_before(a, b),
    decreases a.len(),
{
    if a.len() > 0 && b.len() > 0 && a[0] == b[0] {
        lemma_text_before_total(a.drop_first(), b.drop_first());
        assert(a =~= seq![a[0]] + a.drop_first());
        assert(b =~= seq![b[0]] + b.drop_first());
    } else if a.len() == 0 && b.len() == 0 {
        assert(a =~= b);
    } else if a.len() > 0 && b.len() > 0 {
        lemma_char_code(a[0], b[0]);
    }
}

pub proof fn lemma_text_before_transitive(a: Seq<char>, b: Seq<char>, c: Seq<char>)
    requires
        text_before(a, b),
        text_before(b, c),
    ensures
        text_before(a, c),
    decreases a.len(),
{
    if a.len() > 0 && b.len() > 0 && c.len() > 0 && a[0] == b[0] && b[0] == c[0] {
        lemma_text_before_transitive(a.drop_first(), b.drop_first(), c.drop_first());
    }
}

/// Whether `a` comes before `b`.
pub fn text_is_before(a: &str, b: &str) -> (r: bool)
    ensures
        r == text_before(a@, b@),
{
    let x = chars_of(a);
    let y = chars_of(b);
    let mut i: usize = 0;
    assert(x@.skip(0) =~= x@);
    assert(y@.skip(0) =~= y@);
    while i < x.len() && i < y.len() && x[i] == y[i]
        invariant
            i <= x@.len(),
            i <= y@.len(),
            x@ == a@,
            y@ == b@,
            text_before(a@, b@) == text_before(x@.skip(i as int), y@.skip(i as int)),
        decreases x@.len() - i,
    {
        assert(x@.skip(i as int).drop_first() =~= x@.skip(i + 1));
        assert(y@.skip(i as int).drop_first() =~= y@.skip(i + 1));
        i += 1;
    }
    if i == y.len() {
        false
    } else if i == x.len() {
        true
    } else {
        (x[i] as u32) < (y[i] as u32)
    }
}

/// `x` put into an ascending list, behind everything that does not come after it.
pub open spec fn with_text(sorted: Seq<Seq<char>>, x: Seq<char>) -> Seq<Seq<char>>
    decreases sorted.len(),
{
    if sorted.len() == 0 || !text_before(x, sorted.last()) {
        sorted.push(x)
    } else {
        with_text(sorted.drop_last(), x).push(sorted.last())
    }
}

/// The texts of a list in ascending order.
pub open spec fn sorted_texts(s: Seq<Seq<char>>) -> Seq<Seq<char>>
    decreases s.len(),
{
    if s.len() == 0 {
        Seq::empty()
    } else {
        with_text(sorted_texts(s.drop_last()), s.last())
    }
}

/// No text of the list comes before an earlier one.
pub open spec fn ascending(s: Seq<Seq<char>>) -> bool {
    forall|i: int, j: int| 0 <= i < j < s.len() ==> !text_before(s[j], s[i])
}

proof fn lemma_with_text(sorted: Seq<Seq<char>>, x: Seq<char>)
    requires
        ascending(sorted),
    ensures
        ascending(with_text(sorted, x)),
        with_text(sorted, x).len() == sorted.len() + 1,
        with_text(sorted, x).to_multiset() == sorted.to_multiset().insert(x),
        forall|y: Seq<char>|
            #![trigger with_text(sorted, x).contains(y)]
            #![trigger sorted.contains(y)]
            with_text(sorted, x).contains(y) <==> (sorted.contains(y) || y == x),
    decreases sorted.len(),
{
    broadcast use vstd::seq_lib::group_to_multiset_ensures;

    let res = with_text(sorted, x);
    if sorted.len() == 0 || !text_before(x, sorted.last()) {
        assert forall|i: int, j: int| 0 <= i < j < res.len() implies !text_before(
            res[j],
            res[i],
        ) by {
            if j == sorted.len() && i < sorted.len() - 1 {
                lemma_text_before_total(x, sorted[i]);
                if text_before(x, sorted[i]) {
                    lemma_text_before_total(sorted[i], sorted.last());
                    if text_before(sorted[i], sorted.last()) {
                        lemma_text_before_transitive(x, sorted[i], sorted.last());
                    }
                }
            }
        }
        assert forall|y: Seq<char>| res.contains(y) implies (sorted.contains(y) || y == x) by {
            let k = choose|k: int| 0 <= k < res.len() && res[k] == y;
            if k < sorted.len() {
                assert(sorted[k] == y);
            }
        }
        assert forall|y: Seq<char>| (sorted.contains(y) || y == x) implies res.contains(y) by {
            if sorted.contains(y) {
                let k = choose|k: int| 0 <= k < sorted.len() && sorted[k] == y;
                assert(res[k] == y);
            } else {
                assert(res[sorted.len() as int] == y);
            }
        }
    } else {
        let init = sorted.drop_last();
        let inner = with_text(init, x);
        lemma_with_text(init, x);
        assert(sorted =~= init.push(sorted.last()));
        assert forall|i: int, j: int| 0 <= i < j < res.len() implies !text_before(
            res[j],
            res[i],
        ) by {
            if j == inner.len() {
                assert(inner.contains(inner[i]));
                if init.contains(inner[i]) {
                    let k = choose|k: int| 0 <= k < init.len() && init[k] == inner[i];
                    assert(sorted[k] == inner[i]);
                } else {
                    lemma_text_before_total(x, sorted.last());
                }
            }
        }
        assert(res.to_multiset() =~= inner.to_multiset().insert(sorted.last()));
        assert(sorted.to_multiset() =~= init.to_multiset().insert(sorted.last()));
        assert(res.to_multiset() =~= sorted.to_multiset().insert(x));
        assert forall|y: Seq<char>| res.contains(y) implies (sorted.contains(y) || y == x) by {
            let k = choose|k: int| 0 <= k < res.len() && res[k] == y;
            if k < inner.len() {
                assert(inner[k] == y);
                assert(inner.contains(y));
                if init.contains(y) {
                    let m = choose|m: int| 0 <= m < init.len() && init[m] == y;
                    assert(sorted[m] == y);
                }
            } else {
                assert(sorted[sorted.len() - 1] == y);
            }
        }
        assert forall|y: Seq<char>| (sorted.contains(y) || y == x) implies res.contains(y) by {
            if y == sorted.last() {
                assert(res[inner.len() as int] == y);
            } else {
                if sorted.contains(y) {
                    let m = choose|m: int| 0 <= m < sorted.len() && sorted[m] == y;
                    assert(init[m] == y);
                    assert(init.contains(y));
                }
                assert(init.contains(y) || y == x);
                assert(with_text(init, x).contains(y));
                let k = choose|k: int| 0 <= k < inner.len() && inner[k] == y;
                assert(res[k] == y);
            }
        }
    }
}

/// Sorting a list of texts keeps every text as often as it occurs, and no text comes
/// before an earlier one afterwards.
pub proof fn lemma_sorted_texts(s: Seq<Seq<char>>)
    ensures
        ascending(sorted_texts(s)),
        sorted_texts(s).len() == s.len(),
        sorted_texts(s).to_multiset() == s.to_multiset(),
        forall|y: Seq<char>|
            #![trigger sorted_texts(s).contains(y)]
            #![trigger s.contains(y)]
            sorted_texts(s).contains(y) <==> s.contains(y),
    decreases s.len(),
{
    broadcast use vstd::seq_lib::group_to_multiset_ensures;

    if s.len() > 0 {
        let init = s.drop_last();
        lemma_sorted_texts(init);
        lemma_with_text(sorted_texts(init), s.last());
        assert(s =~= init.push(s.last()));
        assert forall|y: Seq<char>| sorted_texts(s).contains(y) <==> s.contains(y) by {
            if s.contains(y) {
                let k = choose|k: int| 0 <= k < s.len() && s[k] == y;
                if k < init.len() {
                    assert(init[k] == y);
                }
            }
            if init.contains(y) {
                let k = choose|k: int| 0 <= k < init.len() && init[k] == y;
                assert(s[k] == y);
            }
            assert(s[s.len() - 1] == s.last());
        }
    } else {
        assert(sorted_texts(s) =~= s);
    }
}

fn insert_text(sorted: &mut Vec<String>, x: String)
    ensures
        texts(final(sorted)@) == with_text(texts(old(sorted)@), x@),
{
    let ghost all = texts(sorted@);
    let ghost xv = x@;
    let mut at: usize = sorted.len();
    let ghost mut tail: Seq<Seq<char>> = Seq::empty();
    assert(all.take(at as int) =~= all);
    assert(with_text(all, xv) =~= with_text(all.take(at as int), xv) + tail);
    while at > 0 && text_is_before(x.as_str(), sorted[at - 1].as_str())
        invariant
            at <= sorted@.len(),
            all == texts(sorted@),
            xv == x@,
            tail == all.skip(at as int),
            with_text(all, xv) == with_text(all.take(at as int), xv) + tail,
        decreases at,
    {
        at -= 1;
        proof {
            assert(all.take(at + 1).last() == sorted@[at as int]@);
            assert(all.take(at + 1).drop_last() =~= all.take(at as int));
            assert(tail.insert(0, all[at as int]) =~= all.skip(at as int));
            assert(with_text(all.take(at + 1), xv) + tail =~= with_text(all.take(at as int), xv)
                + all.skip(at as int));
            tail = all.skip(at as int);
        }
    }
    sorted.insert(at, x);
    proof {
        if at > 0 {
            assert(all.take(at as int).last() == sorted@[at - 1]@);
        }
        assert(texts(sorted@) =~= all.take(at as int).push(xv) + tail);
    }
}

/// The texts of a list in ascending order.
pub fn sort_texts(v: Vec<String>) -> (res: Vec<String>)
    ensures
        texts(res@) == sorted_texts(texts(v@)),
{
    let mut res: Vec<String> = Vec::new();
    let mut i: usize = 0;
    let ghost all = texts(v@);
    assert(texts(res@) =~= sorted_texts(all.take(0)));
    while i < v.len()
        invariant
            i <= v@.len(),
            all == texts(v@),
            texts(res@) == sorted_texts(all.take(i as int)),
        decreases v@.len() - i,
    {
        insert_text(&mut res, v[i].clone());
        i += 1;
        assert(all.take(i as int).drop_last() =~= all.take(i - 1));
        assert(all.take(i as int).last() == v@[i - 1]@);
    }
    assert(all.take(i as int) =~= all);
    res
}

} // verus!
