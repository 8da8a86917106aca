//! Text as characters and as bytes.
//!
//! Columns are byte offsets, slices are cut between characters. A string is
//! modelled by its sequence of characters; `offset(s, k)` is the byte at which
//! its `k`-th character starts, and those offsets are exactly the places where
//! a cut is allowed.
use vstd::prelude::*;
use vstd::string::*;
use vstd::utf8::*;

verus! {

/// Bytes the character takes in UTF-8.
pub open spec fn char_bytes(c: char) -> int {
    encode_scalar(c as u32).len() as int
}

/// Byte at which character `k` of `s` starts; the length in bytes for `k == s.len()`.
pub open spec fn offset(s: Seq<char>, k: int) -> int {
    encode_utf8(s.take(k)).len() as int
}

/// Length in bytes.
pub open spec fn blen(s: Seq<char>) -> int {
    encode_utf8(s).len() as int
}

pub proof fn lemma_char_bytes(c: char)
    ensures
        1 <= char_bytes(c) <= 4,
        (c as u32) <= 0x7f <==> char_bytes(c) == 1,
{
    char_is_scalar(c);
}

/// Encoding a concatenation is concatenating the encodings.
pub proof fn lemma_encode_concat(a: Seq<char>, b: Seq<char>)
    ensures
        encode_utf8(a + b) == encode_utf8(a) + encode_utf8(b),
    decreases a.len(),
{
    if a.len() == 0 {
        assert(a + b =~= b);
        assert(encode_utf8(a) =~= Seq::<u8>::empty());
        assert(encode_utf8(a) + encode_utf8(b) =~= encode_utf8(b));
    } else {
        assert((a + b).drop_first() =~= a.drop_first() + b);
        lemma_encode_concat(a.drop_first(), b);
        assert(encode_utf8(a + b) =~= encode_utf8(a) + encode_utf8(b));
    }
}

pub proof fn lemma_encode_one(c: char)
    ensures
        encode_utf8(seq![c]) == encode_scalar(c as u32),
        blen(seq![c]) == char_bytes(c),
{
    reveal_with_fuel(encode_utf8, 2);
    assert(seq![c].drop_first() =~= Seq::<char>::empty());
    assert(encode_utf8(seq![c]) =~= encode_scalar(c as u32));
}

pub proof fn lemma_offset_ends(s: Seq<char>)
    ensures
        offset(s, 0) == 0,
        offset(s, s.len() as int) == blen(s),
{
    assert(s.take(0) =~= Seq::<char>::empty());
    assert(s.take(s.len() as int) =~= s);
}

pub proof fn lemma_offset_step(s: Seq<char>, k: int)
    requires
        0 <= k < s.len(),
    ensures
        offset(s, k + 1) == offset(s, k) + char_bytes(s[k]),
        offset(s, k) < offset(s, k + 1),
{
    assert(s.take(k + 1) =~= s.take(k) + seq![s[k]]);
    lemma_encode_concat(s.take(k), seq![s[k]]);
    lemma_encode_one(s[k]);
    lemma_char_bytes(s[k]);
}

proof fn lemma_offset_gap(s: Seq<char>, a: int, b: int)
    requires
        0 <= a <= b <= s.len(),
    ensures
        b - a <= offset(s, b) - offset(s, a) <= 4 * (b - a),
    decreases b - a,
{
    if a < b {
        lemma_offset_gap(s, a, b - 1);
        lemma_offset_step(s, b - 1);
        lemma_char_bytes(s[b - 1]);
    }
}

/// Offsets grow with the character index and stay within the string.
pub proof fn lemma_offset_mono(s: Seq<char>, a: int, b: int)
    requires
        0 <= a <= b <= s.len(),
    ensures
        b - a <= offset(s, b) - offset(s, a) <= 4 * (b - a),
        0 <= a <= offset(s, a),
        offset(s, b) <= blen(s),
        a < b ==> offset(s, a) < offset(s, b),
{
    lemma_offset_gap(s, a, b);
    lemma_offset_gap(s, 0, a);
    lemma_offset_gap(s, b, s.len() as int);
    lemma_offset_ends(s);
}

/// Cutting between two characters cuts the bytes at their offsets.
pub proof fn lemma_offset_cut(s: Seq<char>, a: int, b: int)
    requires
        0 <= a <= b <= s.len(),
    ensures
        0 <= offset(s, a) <= offset(s, b) <= blen(s),
        encode_utf8(s).subrange(offset(s, a), offset(s, b)) == encode_utf8(s.subrange(a, b)),
{
    lemma_offset_mono(s, a, b);
    assert(s.take(b) =~= s.take(a) + s.subrange(a, b));
    lemma_encode_concat(s.take(a), s.subrange(a, b));
    assert(s =~= s.take(b) + s.skip(b));
    lemma_encode_concat(s.take(b), s.skip(b));
    assert(encode_utf8(s).subrange(offset(s, a), offset(s, b)) =~= encode_utf8(s.subrange(a, b)));
}

/// Every character offset is a place where a cut is allowed.
pub proof fn lemma_offset_is_boundary(s: Seq<char>, k: int)
    requires
        0 <= k <= s.len(),
    ensures
        is_char_boundary(encode_utf8(s), offset(s, k)),
    decreases k,
{
    encode_utf8_valid_utf8(s);
    if k == 0 {
        lemma_offset_ends(s);
        is_char_boundary_start_end_of_seq(encode_utf8(s));
    } else {
        let bytes = encode_utf8(s);
        encode_utf8_first_scalar(s);
        assert(pop_first_scalar(bytes) =~= encode_utf8(s.drop_first()));
        lemma_offset_is_boundary(s.drop_first(), k - 1);
        assert(s.take(k) =~= seq![s[0]] + s.drop_first().take(k - 1));
        lemma_encode_concat(seq![s[0]], s.drop_first().take(k - 1));
        lemma_encode_one(s[0]);
        lemma_offset_mono(s, 0, k);
        lemma_char_bytes(s[0]);
    }
}

/// Number of whole characters that end at or before byte `i`, for a byte where a cut is
/// allowed: the inverse of `offset`.
pub open spec fn char_index(s: Seq<char>, i: int) -> int {
    decode_utf8(encode_utf8(s).subrange(0, i)).len() as int
}

/// Every place where a cut is allowed is a character offset.
pub proof fn lemma_boundary_is_offset(s: Seq<char>, i: int)
    requires
        0 <= i <= blen(s),
        is_char_boundary(encode_utf8(s), i),
    ensures
        0 <= char_index(s, i) <= s.len(),
        offset(s, char_index(s, i)) == i,
        decode_utf8(encode_utf8(s).subrange(0, i)) == s.take(char_index(s, i)),
        decode_utf8(encode_utf8(s).subrange(i, blen(s))) == s.skip(char_index(s, i)),
{
    let bytes = encode_utf8(s);
    encode_utf8_valid_utf8(s);
    encode_utf8_decode_utf8(s);
    valid_utf8_split(bytes, i);
    decode_utf8_split(bytes, i);
    let p = decode_utf8(bytes.subrange(0, i));
    let q = decode_utf8(bytes.subrange(i, bytes.len() as int));
    assert(s =~= p + q);
    assert(s.take(p.len() as int) =~= p);
    assert(s.skip(p.len() as int) =~= q);
    decode_utf8_encode_utf8(bytes.subrange(0, i));
}

pub proof fn lemma_char_index_of_offset(s: Seq<char>, k: int)
    requires
        0 <= k <= s.len(),
    ensures
        char_index(s, offset(s, k)) == k,
{
    lemma_offset_cut(s, 0, k);
    lemma_offset_ends(s);
    assert(s.subrange(0, k) =~= s.take(k));
    encode_utf8_decode_utf8(s.take(k));
}

/// Two strings with the same bytes are the same string.
pub proof fn lemma_encode_injective(a: Seq<char>, b: Seq<char>)
    requires
        encode_utf8(a) == encode_utf8(b),
    ensures
        a == b,
{
    encode_utf8_decode_utf8(a);
    encode_utf8_decode_utf8(b);
}

/// A byte starts a character exactly when it is not a continuation byte.
pub proof fn lemma_boundary_byte(s: Seq<char>, i: int)
    requires
        0 <= i < blen(s),
    ensures
        is_char_boundary(encode_utf8(s), i) <==> !is_continuation_byte(encode_utf8(s)[i]),
{
    encode_utf8_valid_utf8(s);
    is_char_boundary_iff_not_is_continuation_byte(encode_utf8(s), i);
}

pub proof fn lemma_boundary_ends(s: Seq<char>)
    ensures
        is_char_boundary(encode_utf8(s), 0),
        is_char_boundary(encode_utf8(s), blen(s)),
{
    encode_utf8_valid_utf8(s);
    is_char_boundary_start_end_of_seq(encode_utf8(s));
}

// ---- executable primitives ----

/// Length in bytes.
pub fn byte_len(s: &str) -> (n: usize)
    ensures
        n == blen(s@),
{
    s.as_bytes().len()
}

/// UTF-8 length of a character.
pub fn char_len(c: char) -> (n: usize)
    ensures
        n == char_bytes(c),
        1 <= n <= 4,
{
    proof {
        char_is_scalar(c);
    }
    let v: u32 = c as u32;
    if v <= 0x7f {
        1
    } else if v <= 0x7ff {
        2
    } else if v <= 0xffff {
        3
    } else {
        4
    }
}

/// Adds a character at the end: `String::push`.
pub assume_specification[ String::push ](s: &mut String, c: char)
    ensures
        final(s)@ == old(s)@.push(c),
;

/// Do two strings hold the same characters?
pub fn str_eq(a: &str, b: &str) -> (r: bool)
    ensures
        r == (a@ == b@),
{
    let x = a.as_bytes();
    let y = b.as_bytes();
    if x.len() != y.len() {
        return false;
    }
    let mut i: usize = 0;
    while i < x.len()
        invariant
            0 <= i <= x@.len(),
            x@.len() == y@.len(),
            x@ == encode_utf8(a@),
            y@ == encode_utf8(b@),
            forall|j: int| 0 <= j < i ==> x@[j] == y@[j],
        decreases x@.len() - i,
    {
        if x[i] != y[i] {
            return false;
        }
        i += 1;
    }
    proof {
        assert(x@ =~= y@);
        lemma_encode_injective(a@, b@);
    }
    true
}

/// The text before and from byte `i` on.
pub fn split(s: &str, i: usize) -> (r: (&str, &str))
    requires
        i <= blen(s@),
        is_char_boundary(encode_utf8(s@), i as int),
    ensures
        r.0@ == s@.take(char_index(s@, i as int)),
        r.1@ == s@.skip(char_index(s@, i as int)),
        blen(r.0@) == i,
        blen(r.1@) == blen(s@) - i,
{
    let r = s.split_at(i);
    proof {
        lemma_boundary_is_offset(s@, i as int);
        encode_utf8_decode_utf8(r.0@);
        encode_utf8_decode_utf8(r.1@);
    }
    r
}

/// Bytes `[a, b)` of `s`, which hold its characters `[ka, kb)`.
pub fn cut<'a>(s: &'a str, a: usize, b: usize, Ghost(ka): Ghost<int>, Ghost(kb): Ghost<int>) -> (r:
    &'a str)
    requires
        0 <= ka <= kb <= s@.len(),
        a == offset(s@, ka),
        b == offset(s@, kb),
    ensures
        r@ == s@.subrange(ka, kb),
{
    proof {
        lemma_offset_is_boundary(s@, kb);
        lemma_offset_mono(s@, ka, kb);
        lemma_char_index_of_offset(s@, kb);
    }
    let h = split(s, b).0;
    proof {
        assert(h@ == s@.take(kb));
        assert(h@.take(ka) =~= s@.take(ka));
        lemma_offset_is_boundary(h@, ka);
        lemma_char_index_of_offset(h@, ka);
    }
    let t = split(h, a).1;
    proof {
        assert(t@ =~= s@.subrange(ka, kb));
    }
    t
}

/// A string with its characters laid out beside their byte offsets.
pub struct Laid<'a> {
    pub text: &'a str,
    pub chars: Vec<char>,
    /// One entry per character and one for the end.
    pub offs: Vec<usize>,
}

impl<'a> Laid<'a> {
    pub open spec fn wf(self) -> bool {
        &&& self.chars@ == self.text@
        &&& self.offs@.len() == self.text@.len() + 1
        &&& forall|k: int| 0 <= k <= self.text@.len() ==> #[trigger] self.offs@[k] == offset(self.text@, k)
    }

    pub fn new(text: &'a str) -> (r: Self)
        ensures
            r.wf(),
            r.text@ == text@,
    {
        let total: usize = byte_len(text);
        let mut it = text.chars();
        let mut chars: Vec<char> = Vec::new();
        let mut offs: Vec<usize> = Vec::new();
        let mut at: usize = 0;
        offs.push(0);
        let ghost mut rest = text@;
        proof {
            lemma_offset_ends(text@);
        }
        loop
            invariant
                vstd::std_specs::iter::IteratorSpec::obeys_prophetic_iter_laws(&it),
                vstd::std_specs::iter::IteratorSpec::decrease(&it) is Some,
                vstd::std_specs::iter::IteratorSpec::remaining(&it) == rest,
                chars@ + rest == text@,
                at == offset(text@, chars@.len() as int),
                total == blen(text@),
                offs@.len() == chars@.len() + 1,
                forall|k: int| 0 <= k <= chars@.len() ==> #[trigger] offs@[k] == offset(text@, k),
            ensures
                chars@ == text@,
                offs@.len() == chars@.len() + 1,
                forall|k: int| 0 <= k <= chars@.len() ==> #[trigger] offs@[k] == offset(text@, k),
            decreases rest.len(),
        {
            match it.next() {
                None => {
                    proof {
                        assert(chars@ =~= text@);
                    }
                    break;
                },
                Some(c) => {
                    let ghost k = chars@.len() as int;
                    proof {
                        assert(c == rest[0]);
                        assert(text@[k] == c);
                        lemma_offset_step(text@, k);
                        lemma_offset_mono(text@, k + 1, k + 1);
                        assert(chars@.push(c) + rest.drop_first() =~= text@);
                    }
                    at = at + char_len(c);
                    chars.push(c);
                    offs.push(at);
                    proof {
                        rest = rest.drop_first();
                    }
                },
            }
        }
        Laid { text, chars, offs }
    }

    pub fn len(&self) -> (n: usize)
        requires
            self.wf(),
        ensures
            n == self.text@.len(),
    {
        self.chars.len()
    }

    /// Characters `[a, b)`.
    pub fn sub(&self, a: usize, b: usize) -> (r: &'a str)
        requires
            self.wf(),
            a <= b <= self.text@.len(),
        ensures
            r@ == self.text@.subrange(a as int, b as int),
    {
        cut(self.text, self.offs[a], self.offs[b], Ghost(a as int), Ghost(b as int))
    }
}

// ---- characters ----

/// Unicode's `White_Space` property.
pub open spec fn is_white(c: char) -> bool {
    ||| '\u{9}' <= c <= '\u{d}'
    ||| c == ' '
    ||| c == '\u{85}'
    ||| c == '\u{a0}'
    ||| c == '\u{1680}'
    ||| '\u{2000}' <= c <= '\u{200a}'
    ||| c == '\u{2028}'
    ||| c == '\u{2029}'
    ||| c == '\u{202f}'
    ||| c == '\u{205f}'
    ||| c == '\u{3000}'
}

pub fn white(c: char) -> (r: bool)
    ensures
        r == is_white(c),
{
    ('\u{9}' <= c && c <= '\u{d}') || c == ' ' || c == '\u{85}' || c == '\u{a0}' || c == '\u{1680}'
        || ('\u{2000}' <= c && c <= '\u{200a}') || c == '\u{2028}' || c == '\u{2029}' || c
        == '\u{202f}' || c == '\u{205f}' || c == '\u{3000}'
}

/// Is every character whitespace?
pub open spec fn is_blank(s: Seq<char>) -> bool {
    forall|i: int| 0 <= i < s.len() ==> is_white(#[trigger] s[i])
}

pub fn blank(s: &str) -> (r: bool)
    ensures
        r == is_blank(s@),
{
    let l = Laid::new(s);
    let mut i: usize = 0;
    while i < l.chars.len()
        invariant
            l.wf(),
            l.text@ == s@,
            i <= l.chars@.len(),
            forall|j: int| 0 <= j < i ==> is_white(#[trigger] s@[j]),
        decreases l.chars@.len() - i,
    {
        if !white(l.chars[i]) {
            assert(!is_white(s@[i as int]));
            return false;
        }
        i += 1;
    }
    true
}

/// Without the characters at the front that `p` holds of.
pub open spec fn strip_front(s: Seq<char>, p: spec_fn(char) -> bool) -> Seq<char>
    decreases s.len(),
{
    if s.len() > 0 && p(s[0]) {
        strip_front(s.drop_first(), p)
    } else {
        s
    }
}

/// Without the characters at the back that `p` holds of.
pub open spec fn strip_back(s: Seq<char>, p: spec_fn(char) -> bool) -> Seq<char>
    decreases s.len(),
{
    if s.len() > 0 && p(s.last()) {
        strip_back(s.drop_last(), p)
    } else {
        s
    }
}

/// How many characters at the front `p` holds of.
pub open spec fn front_run(s: Seq<char>, p: spec_fn(char) -> bool) -> int {
    s.len() - strip_front(s, p).len()
}

/// Stripping the front leaves the suffix after the longest run that `p` holds of.
pub proof fn lemma_strip_front(s: Seq<char>, p: spec_fn(char) -> bool, n: int)
    requires
        0 <= n <= s.len(),
        forall|i: int| 0 <= i < n ==> p(#[trigger] s[i]),
        n < s.len() ==> !p(s[n]),
    ensures
        strip_front(s, p) == s.skip(n),
        front_run(s, p) == n,
    decreases s.len(),
{
    if n == 0 {
        assert(s.skip(0) =~= s);
    } else {
        assert(p(s[0]));
        lemma_strip_front(s.drop_first(), p, n - 1);
        assert(s.skip(n) =~= s.drop_first().skip(n - 1));
    }
}

/// Stripping the back leaves the prefix before the longest run that `p` holds of.
pub proof fn lemma_strip_back(s: Seq<char>, p: spec_fn(char) -> bool, n: int)
    requires
        0 <= n <= s.len(),
        forall|i: int| n <= i < s.len() ==> p(#[trigger] s[i]),
        n > 0 ==> !p(s[n - 1]),
    ensures
        strip_back(s, p) == s.take(n),
    decreases s.len(),
{
    if n == s.len() {
        assert(s.take(n) =~= s);
    } else {
        assert(p(s.last()));
        lemma_strip_back(s.drop_last(), p, n);
        assert(s.take(n) =~= s.drop_last().take(n));
    }
}

/// The text without the whitespace around it.
pub open spec fn trim(s: Seq<char>) -> Seq<char> {
    strip_back(strip_front(s, |c: char| is_white(c)), |c: char| is_white(c))
}

/// The text without the whitespace after it.
pub open spec fn trim_end(s: Seq<char>) -> Seq<char> {
    strip_back(s, |c: char| is_white(c))
}

/// `str::trim_end`.
pub fn trimmed_end<'a>(s: &'a str) -> (r: &'a str)
    ensures
        r@ == trim_end(s@),
{
    let l = Laid::new(s);
    let mut n: usize = l.chars.len();
    while n > 0 && white(l.chars[n - 1])
        invariant
            l.wf(),
            l.text@ == s@,
            n <= s@.len(),
            forall|i: int| n <= i < s@.len() ==> is_white(#[trigger] s@[i]),
        decreases n,
    {
        n -= 1;
    }
    proof {
        lemma_strip_back(s@, |c: char| is_white(c), n as int);
        assert(s@.take(n as int) =~= s@.subrange(0, n as int));
    }
    l.sub(0, n)
}

/// `str::trim`.
pub fn trimmed<'a>(s: &'a str) -> (r: &'a str)
    ensures
        r@ == trim(s@),
{
    let l = Laid::new(s);
    let mut n: usize = 0;
    while n < l.chars.len() && white(l.chars[n])
        invariant
            l.wf(),
            l.text@ == s@,
            n <= s@.len(),
            forall|i: int| 0 <= i < n ==> is_white(#[trigger] s@[i]),
        decreases s@.len() - n,
    {
        n += 1;
    }
    proof {
        lemma_strip_front(s@, |c: char| is_white(c), n as int);
        assert(s@.skip(n as int) =~= s@.subrange(n as int, s@.len() as int));
    }
    trimmed_end(l.sub(n, l.chars.len()))
}

/// Where the front run ends.
pub proof fn lemma_front_run_exists(s: Seq<char>, p: spec_fn(char) -> bool)
    ensures
        0 <= front_run(s, p) <= s.len(),
        strip_front(s, p) == s.skip(front_run(s, p)),
        forall|i: int| 0 <= i < front_run(s, p) ==> p(#[trigger] s[i]),
        front_run(s, p) < s.len() ==> !p(s[front_run(s, p)]),
    decreases s.len(),
{
    if s.len() > 0 && p(s[0]) {
        let t = s.drop_first();
        lemma_front_run_exists(t, p);
        assert forall|i: int| 0 <= i < front_run(s, p) implies p(#[trigger] s[i]) by {
            if i > 0 {
                assert(s[i] == t[i - 1]);
            }
        }
        assert(s.skip(front_run(s, p)) =~= t.skip(front_run(t, p)));
    } else {
        assert(s.skip(0) =~= s);
    }
}

/// Where the back run starts.
pub proof fn lemma_back_run_exists(s: Seq<char>, p: spec_fn(char) -> bool)
    ensures
        strip_back(s, p).len() <= s.len(),
        strip_back(s, p) == s.take(strip_back(s, p).len() as int),
        forall|i: int| strip_back(s, p).len() <= i < s.len() ==> p(#[trigger] s[i]),
        strip_back(s, p).len() > 0 ==> !p(s[strip_back(s, p).len() - 1]),
    decreases s.len(),
{
    if s.len() > 0 && p(s.last()) {
        lemma_back_run_exists(s.drop_last(), p);
        let n = strip_back(s, p).len() as int;
        assert(s.take(n) =~= s.drop_last().take(n));
        assert forall|i: int| n <= i < s.len() implies p(#[trigger] s[i]) by {
            if i < s.len() - 1 {
                assert(s.drop_last()[i] == s[i]);
            }
        }
    } else {
        assert(s.take(s.len() as int) =~= s);
    }
}

// ---- byte columns ----

/// Largest byte index at most `i` that starts a character.
pub open spec fn floor_at(b: Seq<u8>, i: int) -> int
    decreases i,
{
    if i >= b.len() {
        b.len() as int
    } else if i <= 0 {
        0
    } else if !is_continuation_byte(b[i]) {
        i
    } else {
        floor_at(b, i - 1)
    }
}

/// Smallest byte index at least `i` that starts a character.
pub open spec fn ceil_at(b: Seq<u8>, i: int) -> int
    decreases b.len() - i,
{
    if i >= b.len() {
        b.len() as int
    } else if i <= 0 {
        0
    } else if !is_continuation_byte(b[i]) {
        i
    } else {
        ceil_at(b, i + 1)
    }
}

/// The two roundings land on character boundaries either side of `i`.
pub proof fn lemma_round(s: Seq<char>, i: int)
    requires
        0 <= i,
    ensures
        0 <= floor_at(encode_utf8(s), i) <= blen(s),
        0 <= ceil_at(encode_utf8(s), i) <= blen(s),
        floor_at(encode_utf8(s), i) <= i,
        i <= blen(s) ==> i <= ceil_at(encode_utf8(s), i),
        is_char_boundary(encode_utf8(s), floor_at(encode_utf8(s), i)),
        is_char_boundary(encode_utf8(s), ceil_at(encode_utf8(s), i)),
{
    lemma_floor(s, i);
    lemma_ceil(s, i);
}

proof fn lemma_floor(s: Seq<char>, i: int)
    requires
        0 <= i,
    ensures
        0 <= floor_at(encode_utf8(s), i) <= blen(s),
        floor_at(encode_utf8(s), i) <= i,
        is_char_boundary(encode_utf8(s), floor_at(encode_utf8(s), i)),
    decreases i,
{
    lemma_boundary_ends(s);
    if 0 < i < blen(s) {
        lemma_boundary_byte(s, i);
        if is_continuation_byte(encode_utf8(s)[i]) {
            lemma_floor(s, i - 1);
        }
    }
}

proof fn lemma_ceil(s: Seq<char>, i: int)
    requires
        0 <= i,
    ensures
        0 <= ceil_at(encode_utf8(s), i) <= blen(s),
        i <= blen(s) ==> i <= ceil_at(encode_utf8(s), i),
        is_char_boundary(encode_utf8(s), ceil_at(encode_utf8(s), i)),
    decreases blen(s) - i,
{
    lemma_boundary_ends(s);
    if 0 < i < blen(s) {
        lemma_boundary_byte(s, i);
        if is_continuation_byte(encode_utf8(s)[i]) {
            lemma_ceil(s, i + 1);
        }
    }
}

pub fn floor_boundary(s: &str, i: usize) -> (r: usize)
    ensures
        r == floor_at(encode_utf8(s@), i as int),
        r <= i,
        r <= blen(s@),
        is_char_boundary(encode_utf8(s@), r as int),
{
    proof {
        lemma_round(s@, i as int);
    }
    let b = s.as_bytes();
    let mut j: usize = if i < b.len() {
        i
    } else {
        b.len()
    };
    while j > 0 && j < b.len() && b[j] >= 0x80 && b[j] <= 0xbf
        invariant
            b@ == encode_utf8(s@),
            j <= b@.len(),
            floor_at(b@, j as int) == floor_at(b@, i as int),
        decreases j,
    {
        j -= 1;
    }
    j
}

pub fn ceil_boundary(s: &str, i: usize) -> (r: usize)
    ensures
        r == ceil_at(encode_utf8(s@), i as int),
        r <= blen(s@),
        is_char_boundary(encode_utf8(s@), r as int),
{
    proof {
        lemma_round(s@, i as int);
    }
    let b = s.as_bytes();
    let mut j: usize = if i < b.len() {
        i
    } else {
        b.len()
    };
    while j > 0 && j < b.len() && b[j] >= 0x80 && b[j] <= 0xbf
        invariant
            b@ == encode_utf8(s@),
            j <= b@.len(),
            ceil_at(b@, j as int) == ceil_at(b@, i as int),
        decreases b@.len() - j,
    {
        j += 1;
    }
    j
}

/// Bytes `[a, b)` of `s` as text; empty when the range runs backwards.
pub open spec fn byte_slice(s: Seq<char>, a: int, b: int) -> Seq<char> {
    decode_utf8(encode_utf8(s).subrange(if a <= b { a } else { b }, b))
}

/// The slice by bytes is the slice by characters.
pub proof fn lemma_byte_slice(s: Seq<char>, a: int, b: int)
    requires
        0 <= a <= b <= s.len(),
    ensures
        byte_slice(s, offset(s, a), offset(s, b)) == s.subrange(a, b),
{
    lemma_offset_cut(s, a, b);
    encode_utf8_decode_utf8(s.subrange(a, b));
}

/// `&s[a.min(b)..b]`.
pub fn bytes_between<'a>(s: &'a str, a: usize, b: usize) -> (r: &'a str)
    requires
        a <= blen(s@),
        b <= blen(s@),
        is_char_boundary(encode_utf8(s@), a as int),
        is_char_boundary(encode_utf8(s@), b as int),
    ensures
        r@ == byte_slice(s@, a as int, b as int),
        a <= b ==> blen(r@) == b - a,
{
    let a2: usize = if a <= b {
        a
    } else {
        b
    };
    proof {
        lemma_boundary_is_offset(s@, a2 as int);
        lemma_boundary_is_offset(s@, b as int);
        let ka = char_index(s@, a2 as int);
        let kb = char_index(s@, b as int);
        if ka > kb {
            lemma_offset_mono(s@, kb, ka);
        }
        lemma_byte_slice(s@, ka, kb);
        lemma_offset_cut(s@, ka, kb);
    }
    cut(s, a2, b, Ghost(char_index(s@, a2 as int)), Ghost(char_index(s@, b as int)))
}

/// A cut at byte `i` is allowed.
pub open spec fn is_cut(s: Seq<char>, i: int) -> bool {
    0 <= i <= blen(s) && is_char_boundary(encode_utf8(s), i)
}

/// The text from byte `i` on, where a cut is allowed there.
pub open spec fn tail_at(s: Seq<char>, i: int) -> Option<Seq<char>> {
    if is_cut(s, i) {
        Some(s.skip(char_index(s, i)))
    } else {
        None
    }
}

/// `s.get(i..)`.
pub fn get_from<'a>(s: &'a str, i: usize) -> (r: Option<&'a str>)
    ensures
        match tail_at(s@, i as int) {
            None => r is None,
            Some(t) => r matches Some(u) && u@ == t && blen(t) + i == blen(s@),
        },
{
    if i <= byte_len(s) && s.is_char_boundary(i) {
        Some(split(s, i).1)
    } else {
        None
    }
}

// ---- building ----

/// `n` copies of `c`.
pub open spec fn repeat(c: char, n: int) -> Seq<char> {
    Seq::new(
        if n >= 0 {
            n as nat
        } else {
            0
        },
        |i: int| c,
    )
}

pub fn repeated(c: char, n: usize) -> (r: String)
    ensures
        r@ == repeat(c, n as int),
{
    let mut out = String::new();
    let mut i: usize = 0;
    while i < n
        invariant
            i <= n,
            out@ == repeat(c, i as int),
        decreases n - i,
    {
        out.push(c);
        i += 1;
        proof {
            assert(out@ =~= repeat(c, i as int));
        }
    }
    proof {
        assert(out@ =~= repeat(c, n as int));
    }
    out
}

pub open spec fn digit(d: int) -> char {
    if d == 0 {
        '0'
    } else if d == 1 {
        '1'
    } else if d == 2 {
        '2'
    } else if d == 3 {
        '3'
    } else if d == 4 {
        '4'
    } else if d == 5 {
        '5'
    } else if d == 6 {
        '6'
    } else if d == 7 {
        '7'
    } else if d == 8 {
        '8'
    } else {
        '9'
    }
}

fn digit_char(d: usize) -> (c: char)
    requires
        d < 10,
    ensures
        c == digit(d as int),
{
    match d {
        0 => '0',
        1 => '1',
        2 => '2',
        3 => '3',
        4 => '4',
        5 => '5',
        6 => '6',
        7 => '7',
        8 => '8',
        _ => '9',
    }
}

/// A number in decimal.
pub open spec fn decimal(n: nat) -> Seq<char>
    decreases n,
{
    if n < 10 {
        seq![digit(n as int)]
    } else {
        decimal(n / 10).push(digit((n % 10) as int))
    }
}

pub fn decimal_string(n: usize) -> (r: String)
    ensures
        r@ == decimal(n as nat),
    decreases n,
{
    if n < 10 {
        let mut out = String::new();
        out.push(digit_char(n));
        proof {
            assert(out@ =~= decimal(n as nat));
        }
        out
    } else {
        let mut out = decimal_string(n / 10);
        out.push(digit_char(n % 10));
        out
    }
}

/// At least `w` characters, filled with spaces on the left.
pub open spec fn pad_left(s: Seq<char>, w: int) -> Seq<char> {
    repeat(' ', w - s.len()) + s
}

/// At least `w` characters, filled with spaces on the right.
pub open spec fn pad_right(s: Seq<char>, w: int) -> Seq<char> {
    s + repeat(' ', w - s.len())
}

/// Number of characters.
pub fn char_count(s: &str) -> (n: usize)
    ensures
        n == s@.len(),
{
    s.unicode_len()
}

pub fn padded_left(s: &str, w: usize) -> (r: String)
    ensures
        r@ == pad_left(s@, w as int),
{
    let n: usize = char_count(s);
    let mut out = repeated(
        ' ',
        if n < w {
            w - n
        } else {
            0
        },
    );
    out.append(s);
    proof {
        assert(out@ =~= pad_left(s@, w as int));
    }
    out
}

pub fn padded_right(s: &str, w: usize) -> (r: String)
    ensures
        r@ == pad_right(s@, w as int),
{
    let n: usize = char_count(s);
    let mut out = s.to_owned();
    let fill = repeated(
        ' ',
        if n < w {
            w - n
        } else {
            0
        },
    );
    out.append(fill.as_str());
    proof {
        assert(out@ =~= pad_right(s@, w as int));
    }
    out
}

/// Every `from` replaced by `to`.
pub open spec fn replace_char(s: Seq<char>, from: char, to: char) -> Seq<char> {
    s.map_values(
        |c: char|
            if c == from {
                to
            } else {
                c
            },
    )
}

pub fn replaced(s: &str, from: char, to: char) -> (r: String)
    ensures
        r@ == replace_char(s@, from, to),
{
    let l = Laid::new(s);
    let mut out = String::new();
    let mut i: usize = 0;
    while i < l.chars.len()
        invariant
            l.wf(),
            l.text@ == s@,
            i <= s@.len(),
            out@ == replace_char(s@.take(i as int), from, to),
        decreases s@.len() - i,
    {
        let c = l.chars[i];
        out.push(
            if c == from {
                to
            } else {
                c
            },
        );
        i += 1;
        proof {
            assert(out@ =~= replace_char(s@.take(i as int), from, to));
        }
    }
    proof {
        assert(s@.take(i as int) =~= s@);
        assert(out@ =~= replace_char(s@, from, to));
    }
    out
}

/// Swapping one ASCII character for another keeps every offset.
pub proof fn lemma_replace_offsets(s: Seq<char>, from: char, to: char, k: int)
    requires
        from as u32 <= 0x7f,
        to as u32 <= 0x7f,
        0 <= k <= s.len(),
    ensures
        replace_char(s, from, to).len() == s.len(),
        offset(replace_char(s, from, to), k) == offset(s, k),
    decreases k,
{
    let t = replace_char(s, from, to);
    lemma_offset_ends(s);
    lemma_offset_ends(t);
    if k > 0 {
        lemma_replace_offsets(s, from, to, k - 1);
        lemma_offset_step(s, k - 1);
        lemma_offset_step(t, k - 1);
        lemma_char_bytes(s[k - 1]);
        lemma_char_bytes(t[k - 1]);
        lemma_char_bytes(from);
        lemma_char_bytes(to);
    }
}

/// The strings of a list.
pub open spec fn texts(v: Seq<String>) -> Seq<Seq<char>> {
    v.map_values(|s: String| s@)
}

/// The string slices of a list.
pub open spec fn slices(v: Seq<&str>) -> Seq<Seq<char>> {
    v.map_values(|s: &str| s@)
}

// ---- splitting ----

/// Characters before the first `c`; all of them when there is none.
pub open spec fn until(s: Seq<char>, c: char) -> int
    decreases s.len(),
{
    if s.len() == 0 || s[0] == c {
        0
    } else {
        1 + until(s.drop_first(), c)
    }
}

/// The pieces between the `c`s: one more than there are `c`s.
pub open spec fn split_on(s: Seq<char>, c: char) -> Seq<Seq<char>>
    decreases s.len(),
{
    let i = until(s, c);
    if 0 <= i < s.len() {
        seq![s.take(i)] + split_on(s.skip(i + 1), c)
    } else {
        seq![s]
    }
}

pub proof fn lemma_until(s: Seq<char>, c: char, n: int)
    requires
        0 <= n <= s.len(),
        forall|i: int| 0 <= i < n ==> #[trigger] s[i] != c,
        n < s.len() ==> s[n] == c,
    ensures
        until(s, c) == n,
    decreases n,
{
    if n > 0 {
        assert(s[0] != c);
        lemma_until(s.drop_first(), c, n - 1);
    }
}

pub proof fn lemma_until_bound(s: Seq<char>, c: char)
    ensures
        0 <= until(s, c) <= s.len(),
        forall|i: int| 0 <= i < until(s, c) ==> #[trigger] s[i] != c,
        until(s, c) < s.len() ==> s[until(s, c)] == c,
    decreases s.len(),
{
    if s.len() > 0 && s[0] != c {
        let t = s.drop_first();
        lemma_until_bound(t, c);
        assert forall|i: int| 0 <= i < until(s, c) implies #[trigger] s[i] != c by {
            if i > 0 {
                assert(s[i] == t[i - 1]);
            }
        }
    }
}

/// `str::split` on a character.
pub fn pieces<'a>(s: &'a str, c: char) -> (r: Vec<&'a str>)
    ensures
        slices(r@) == split_on(s@, c),
        r@.len() >= 1,
{
    let l = Laid::new(s);
    let n: usize = l.chars.len();
    let mut out: Vec<&'a str> = Vec::new();
    let mut from: usize = 0;
    proof {
        assert(s@.skip(0) =~= s@);
        assert(slices(out@) + split_on(s@, c) =~= split_on(s@, c));
    }
    loop
        invariant_except_break
            l.wf(),
            l.text@ == s@,
            n == s@.len(),
            from <= n,
            slices(out@) + split_on(s@.skip(from as int), c) == split_on(s@, c),
        ensures
            slices(out@) == split_on(s@, c),
            out@.len() >= 1,
        decreases n - from + 1,
    {
        let ghost rest = s@.skip(from as int);
        let ghost before = slices(out@);
        let mut i: usize = from;
        while i < n && l.chars[i] != c
            invariant
                l.wf(),
                l.text@ == s@,
                n == s@.len(),
                from <= i <= n,
                forall|j: int| from <= j < i ==> #[trigger] s@[j] != c,
            decreases n - i,
        {
            i += 1;
        }
        proof {
            assert forall|j: int| 0 <= j < i - from implies #[trigger] rest[j] != c by {
                assert(rest[j] == s@[from + j]);
            }
            if i < n {
                assert(rest[i - from] == s@[i as int]);
            }
            lemma_until(rest, c, i - from);
            assert(rest.take(i - from) =~= s@.subrange(from as int, i as int));
        }
        let piece = l.sub(from, i);
        out.push(piece);
        proof {
            assert(slices(out@) =~= before.push(piece@));
        }
        if i == n {
            proof {
                assert(rest =~= piece@);
                assert(slices(out@) =~= before + seq![rest]);
            }
            break;
        }
        proof {
            assert(rest.skip(i - from + 1) =~= s@.skip(i + 1));
            assert(slices(out@) + split_on(s@.skip(i + 1), c) =~= before + (seq![piece@] + split_on(
                s@.skip(i + 1),
                c,
            )));
        }
        from = i + 1;
    }
    out
}

/// The parts with `sep` between them.
pub open spec fn join(parts: Seq<Seq<char>>, sep: Seq<char>) -> Seq<char>
    decreases parts.len(),
{
    if parts.len() == 0 {
        Seq::empty()
    } else if parts.len() == 1 {
        parts[0]
    } else {
        join(parts.drop_last(), sep) + sep + parts.last()
    }
}

/// Splitting a text that starts with a piece and a separator peels that piece off.
pub proof fn lemma_split_peel(head: Seq<char>, c: char, s: Seq<char>)
    requires
        forall|i: int| 0 <= i < head.len() ==> #[trigger] head[i] != c,
    ensures
        split_on(head + seq![c] + s, c) == seq![head] + split_on(s, c),
{
    let t = head + seq![c] + s;
    assert forall|i: int| 0 <= i < head.len() implies #[trigger] t[i] != c by {
        assert(t[i] == head[i]);
    }
    lemma_until(t, c, head.len() as int);
    assert(t.take(head.len() as int) =~= head);
    assert(t.skip(head.len() as int + 1) =~= s);
}

/// A text without separators is one piece.
pub proof fn lemma_split_whole(s: Seq<char>, c: char)
    requires
        forall|i: int| 0 <= i < s.len() ==> #[trigger] s[i] != c,
    ensures
        split_on(s, c) == seq![s],
{
    lemma_until(s, c, s.len() as int);
}

/// The parts with `sep` between them.
pub fn joined(parts: &Vec<String>, sep: &str) -> (r: String)
    ensures
        r@ == join(texts(parts@), sep@),
{
    let ghost ps = texts(parts@);
    let mut out = String::new();
    let mut i: usize = 0;
    proof {
        assert(ps.take(0) =~= Seq::<Seq<char>>::empty());
    }
    while i < parts.len()
        invariant
            i <= parts@.len(),
            ps == texts(parts@),
            out@ =~= join(ps.take(i as int), sep@),
        decreases parts@.len() - i,
    {
        proof {
            assert(ps.take(i + 1).drop_last() =~= ps.take(i as int));
        }
        if i > 0 {
            out.append(sep);
        }
        out.append(parts[i].as_str());
        i += 1;
    }
    proof {
        assert(ps.take(i as int) =~= ps);
    }
    out
}

/// Splitting a text that ends in a separator and a piece leaves that piece for last.
pub proof fn lemma_split_append(a: Seq<char>, c: char, tail: Seq<char>)
    requires
        forall|i: int| 0 <= i < tail.len() ==> #[trigger] tail[i] != c,
    ensures
        split_on(a + seq![c] + tail, c) == split_on(a, c).push(tail),
    decreases a.len(),
{
    lemma_until_bound(a, c);
    let i = until(a, c);
    if i < a.len() {
        let head = a.take(i);
        let rest = a.skip(i + 1);
        lemma_split_append(rest, c, tail);
        assert(a =~= head + seq![c] + rest);
        lemma_split_peel(head, c, rest + seq![c] + tail);
        assert(a + seq![c] + tail =~= head + seq![c] + (rest + seq![c] + tail));
        assert(split_on(a, c) == seq![head] + split_on(rest, c));
        assert(seq![head] + split_on(rest, c).push(tail) =~= (seq![head] + split_on(rest, c)).push(tail));
    } else {
        lemma_split_peel(a, c, tail);
        lemma_split_whole(tail, c);
        assert(seq![a] + seq![tail] =~= seq![a].push(tail));
    }
}

/// Splitting undoes joining, where no part holds the separator.
pub proof fn lemma_split_join(parts: Seq<Seq<char>>, c: char)
    requires
        parts.len() > 0,
        forall|i: int, k: int|
            0 <= i < parts.len() && 0 <= k < parts[i].len() ==> #[trigger] parts[i][k] != c,
    ensures
        split_on(join(parts, seq![c]), c) == parts,
    decreases parts.len(),
{
    let last = parts.last();
    assert forall|k: int| 0 <= k < last.len() implies #[trigger] last[k] != c by {
        assert(parts[parts.len() - 1][k] != c);
    }
    if parts.len() == 1 {
        lemma_split_whole(last, c);
        assert(seq![last] =~= parts);
    } else {
        let front = parts.drop_last();
        assert forall|i: int, k: int| 0 <= i < front.len() && 0 <= k < front[i].len() implies
            #[trigger] front[i][k] != c by {
            assert(parts[i][k] != c);
        }
        lemma_split_join(front, c);
        lemma_split_append(join(front, seq![c]), c, last);
        assert(front.push(last) =~= parts);
    }
}

/// Splitting loses nothing and leaves no separator: the pieces, with the separator between them, are
/// the text, none of them holds it, and they hold no character that the text does not.
pub proof fn law_pieces_are_what_lies_between(s: Seq<char>, c: char)
    ensures
        split_on(s, c).len() >= 1,
        join(split_on(s, c), seq![c]) == s,
        forall|i: int, k: int|
            0 <= i < split_on(s, c).len() && 0 <= k < split_on(s, c)[i].len()
                ==> #[trigger] split_on(s, c)[i][k] != c && s.contains(split_on(s, c)[i][k]),
        forall|i: int, x: char|
            0 <= i < split_on(s, c).len() && #[trigger] split_on(s, c)[i].contains(x) ==> x != c
                && s.contains(x),
    decreases s.len(),
{
    lemma_until_bound(s, c);
    let n = until(s, c);
    let ps = split_on(s, c);
    if n < s.len() {
        let rest = s.skip(n + 1);
        let qs = split_on(rest, c);
        law_pieces_are_what_lies_between(rest, c);
        assert forall|i: int, k: int| 0 <= i < ps.len() && 0 <= k < ps[i].len() implies #[trigger] ps[i][k]
            != c && s.contains(ps[i][k]) by {
            if i == 0 {
                assert(ps[0] == s.take(n));
                assert(ps[0][k] == s[k]);
            } else {
                assert(ps[i] == qs[i - 1]);
                assert(qs[i - 1][k] != c);
                let x = qs[i - 1][k];
                let j = choose|j: int| 0 <= j < rest.len() && rest[j] == x;
                assert(s[n + 1 + j] == x);
            }
        }
        lemma_join_front(s.take(n), qs, c);
        assert(s =~= s.take(n) + seq![c] + rest);
    } else {
        assert(ps =~= seq![s]);
    }
    assert forall|i: int, x: char| 0 <= i < ps.len() && #[trigger] ps[i].contains(x) implies x != c
        && s.contains(x) by {
        let k = choose|k: int| 0 <= k < ps[i].len() && ps[i][k] == x;
        assert(ps[i][k] != c);
    }
}

proof fn lemma_join_front(head: Seq<char>, parts: Seq<Seq<char>>, c: char)
    requires
        parts.len() >= 1,
    ensures
        join(seq![head] + parts, seq![c]) == head + seq![c] + join(parts, seq![c]),
    decreases parts.len(),
{
    let all = seq![head] + parts;
    if parts.len() == 1 {
        assert(all.drop_last() =~= seq![head]);
        assert(join(all.drop_last(), seq![c]) == head);
    } else {
        lemma_join_front(head, parts.drop_last(), c);
        assert(all.drop_last() =~= seq![head] + parts.drop_last());
        assert(join(all, seq![c]) =~= head + seq![c] + join(parts, seq![c]));
    }
}

/// No two numbers are written alike.
pub proof fn lemma_decimal_injective(a: nat, b: nat)
    requires
        decimal(a) == decimal(b),
    ensures
        a == b,
    decreases a,
{
    let x = decimal(a);
    let y = decimal(b);
    assert(x.last() == y.last());
    if a >= 10 {
        assert(decimal(a / 10).len() >= 1);
        assert(x.drop_last() =~= decimal(a / 10));
    }
    if b >= 10 {
        assert(decimal(b / 10).len() >= 1);
        assert(y.drop_last() =~= decimal(b / 10));
    }
    if a >= 10 && b >= 10 {
        lemma_decimal_injective(a / 10, b / 10);
    }
}

/// A place where a cut is allowed stays at or before the start of the character that any later byte
/// is in.
pub proof fn lemma_floor_keeps_cut(s: Seq<char>, at: int, i: int)
    requires
        is_cut(s, at),
        at <= i,
        at < blen(s),
    ensures
        at <= floor_at(encode_utf8(s), i),
    decreases i,
{
    lemma_boundary_byte(s, at);
    if at < i < blen(s) && is_continuation_byte(encode_utf8(s)[i]) {
        lemma_floor_keeps_cut(s, at, i - 1);
    }
}

proof fn lemma_ceil_keeps_cut(s: Seq<char>, at: int, i: int)
    requires
        is_cut(s, at),
        0 <= i <= at,
    ensures
        ceil_at(encode_utf8(s), i) <= at,
    decreases at - i,
{
    if at < blen(s) {
        lemma_boundary_byte(s, at);
    }
    if 0 < i < at && is_continuation_byte(encode_utf8(s)[i]) {
        lemma_ceil_keeps_cut(s, at, i + 1);
    }
}

/// Rounding a byte down gives the start of the character it is in; rounding it up gives the byte
/// itself where a character starts there, else the start of the next character.
pub proof fn law_columns_round_to_characters(s: Seq<char>, i: int, k: int)
    ensures
        0 <= k < s.len() && offset(s, k) <= i < offset(s, k + 1) ==> floor_at(encode_utf8(s), i)
            == offset(s, k),
        0 <= k < s.len() && offset(s, k) < i <= offset(s, k + 1) ==> ceil_at(encode_utf8(s), i)
            == offset(s, k + 1),
        0 <= k <= s.len() && i == offset(s, k) ==> ceil_at(encode_utf8(s), i) == i,
        i >= blen(s) ==> floor_at(encode_utf8(s), i) == blen(s) && ceil_at(encode_utf8(s), i)
            == blen(s),
{
    let b = encode_utf8(s);
    lemma_offset_ends(s);
    if 0 <= k < s.len() && offset(s, k) <= i < offset(s, k + 1) {
        lemma_offset_mono(s, 0, k);
        lemma_offset_mono(s, k + 1, s.len() as int);
        lemma_offset_is_boundary(s, k);
        lemma_floor_keeps_cut(s, offset(s, k), i);
        lemma_round(s, i);
        let r = floor_at(b, i);
        lemma_boundary_is_offset(s, r);
        let j = char_index(s, r);
        if j < k {
            lemma_offset_mono(s, j, k);
        } else if j > k {
            lemma_offset_mono(s, k + 1, j);
        }
    }
    if 0 <= k < s.len() && offset(s, k) < i <= offset(s, k + 1) {
        lemma_offset_mono(s, 0, k);
        lemma_offset_mono(s, k + 1, s.len() as int);
        lemma_offset_is_boundary(s, k + 1);
        lemma_ceil_keeps_cut(s, offset(s, k + 1), i);
        lemma_round(s, i);
        let r = ceil_at(b, i);
        lemma_boundary_is_offset(s, r);
        let j = char_index(s, r);
        if j <= k {
            lemma_offset_mono(s, j, k);
        } else if j > k + 1 {
            lemma_offset_mono(s, k + 1, j);
        }
    }
    if 0 <= k <= s.len() && i == offset(s, k) {
        lemma_offset_mono(s, 0, k);
        lemma_offset_mono(s, k, s.len() as int);
        lemma_offset_is_boundary(s, k);
        lemma_ceil_keeps_cut(s, i, i);
        lemma_round(s, i);
    }
}

/// Trimming takes white space from both ends and nothing else: what is left stands in the text with
/// only white space before it and behind it, and neither starts nor ends with one.
pub proof fn law_trimming_takes_only_white_space(s: Seq<char>)
    ensures
        exists|a: int, b: int|
            #![trigger s.subrange(a, b)]
            {
                &&& 0 <= a <= b <= s.len()
                &&& trim(s) == s.subrange(a, b)
                &&& forall|i: int| 0 <= i < a || b <= i < s.len() ==> is_white(#[trigger] s[i])
                &&& a < b ==> !is_white(s[a]) && !is_white(s[b - 1])
            },
{
    let p = |c: char| is_white(c);
    lemma_front_run_exists(s, p);
    let a = front_run(s, p);
    let t = strip_front(s, p);
    lemma_back_run_exists(t, p);
    let n = strip_back(t, p).len() as int;
    let b = a + n;
    assert(trim(s) =~= s.subrange(a, b));
    assert forall|i: int| 0 <= i < a || b <= i < s.len() implies is_white(#[trigger] s[i]) by {
        if i < a {
            assert(p(s[i]));
        } else {
            assert(p(t[i - a]));
        }
    }
    if a < b {
        assert(t[n - 1] == s[b - 1]);
        assert(!p(t[n - 1]));
        assert(!p(s[a]));
    }
}

/// A number is written digit by digit, the last digit last, with no zero in front.
pub proof fn law_a_number_is_its_digits(n: nat, d: nat)
    requires
        d < 10,
    ensures
        decimal(d) == seq![digit(d as int)],
        n > 0 ==> decimal(10 * n + d) == decimal(n) + seq![digit(d as int)],
        digit(d as int) as u32 == '0' as u32 + d,
{
    if n > 0 {
        assert((10 * n + d) / 10 == n);
        assert((10 * n + d) % 10 == d);
        assert(decimal(10 * n + d) =~= decimal(n) + seq![digit(d as int)]);
    }
}

} // verus!
