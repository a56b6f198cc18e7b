//! Text as a sequence of characters: comparison, searching, splitting into lines and words,
//! and the two renderings that are taken from the standard library as they are.

use vstd::prelude::*;
use vstd::slice::*;
use vstd::string::*;
use vstd::utf8::*;

verus! {

/// The model of every piece of text in this crate: its characters, in order.
pub type Text = Seq<char>;

/// The views of a sequence of strings, in the same order.
pub open spec fn views(strings: Seq<String>) -> Seq<Text> {
    strings.map_values(|s: String| s@)
}

/// The view of an optional string.
pub open spec fn opt_view(s: Option<String>) -> Option<Text> {
    match s {
        Some(t) => Some(t@),
        None => None,
    }
}

// ---------------------------------------------------------------------------
// Order and equality
// ---------------------------------------------------------------------------

/// Lexicographic order by code point, which is also the order of the UTF-8 encodings.
pub open spec fn text_lt(a: Text, b: Text) -> bool
    decreases a.len(),
{
    if b.len() == 0 {
        false
    } else if a.len() == 0 {
        true
    } else if a[0] != b[0] {
        a[0] < b[0]
    } else {
        text_lt(a.drop_first(), b.drop_first())
    }
}

/// No text comes before itself.
pub proof fn lemma_text_lt_irreflexive(a: Text)
    ensures
        !text_lt(a, a),
    decreases a.len(),
{
    if a.len() > 0 {
        lemma_text_lt_irreflexive(a.drop_first());
    }
}

/// The order is transitive.
pub proof fn lemma_text_lt_transitive(a: Text, b: Text, c: Text)
    requires
        text_lt(a, b),
        text_lt(b, c),
    ensures
        text_lt(a, c),
    decreases a.len(),
{
    if a.len() > 0 && a[0] == b[0] && b[0] == c[0] {
        lemma_text_lt_transitive(a.drop_first(), b.drop_first(), c.drop_first());
    }
}

/// Two different texts are ordered one way or the other.
pub proof fn lemma_text_lt_total(a: Text, b: Text)
    ensures
        a == b || text_lt(a, b) || text_lt(b, a),
    decreases a.len(),
{
    if a.len() == 0 {
        if b.len() == 0 {
            assert(a =~= b);
        }
    } else if b.len() > 0 && a[0] == b[0] {
        lemma_text_lt_total(a.drop_first(), b.drop_first());
        if a.drop_first() == b.drop_first() {
            assert(a =~= seq![a[0]] + a.drop_first());
            assert(b =~= seq![b[0]] + b.drop_first());
        }
    }
}

/// The characters of a string.
pub fn chars_of(s: &str) -> (r: Vec<char>)
    ensures
        r@ == s@,
{
    let mut out: Vec<char> = Vec::new();
    for c in it: s.chars()
        invariant
            out@ == it.seq().take(it.index() as int),
            it.seq() == s@,
    {
        out.push(c);
    }
    out
}

/// Whether two strings hold the same characters.
pub fn same_text(a: &str, b: &str) -> (r: bool)
    ensures
        r == (a@ == b@),
{
    let x = chars_of(a);
    let y = chars_of(b);
    if x.len() != y.len() {
        return false;
    }
    let mut i: usize = 0;
    while i < x.len()
        invariant
            i <= x.len(),
            x.len() == y.len(),
            x@ == a@,
            y@ == b@,
            forall|k: int| 0 <= k < i ==> x[k] == y[k],
        decreases x.len() - i,
    {
        if x[i] != y[i] {
            return false;
        }
        i += 1;
    }
    assert(a@ =~= b@);
    true
}

/// Whether `a` comes before `b` in the order of `text_lt`.
pub fn comes_before(a: &str, b: &str) -> (r: bool)
    ensures
        r == text_lt(a@, b@),
{
    let x = chars_of(a);
    let y = chars_of(b);
    let mut i: usize = 0;
    assert(x@.skip(0) =~= x@);
    assert(y@.skip(0) =~= y@);
    while i < x.len() && i < y.len() && x[i] == y[i]
        invariant
            i <= x.len(),
            i <= y.len(),
            text_lt(x@, y@) == text_lt(x@.skip(i as int), y@.skip(i as int)),
        decreases x.len() - i,
    {
        assert(x@.skip(i as int).drop_first() =~= x@.skip(i + 1));
        assert(y@.skip(i as int).drop_first() =~= y@.skip(i + 1));
        i += 1;
    }
    if i >= y.len() {
        false
    } else if i >= x.len() {
        true
    } else {
        x[i] < y[i]
    }
}

// ---------------------------------------------------------------------------
// Whitespace and words
// ---------------------------------------------------------------------------

/// The characters with the Unicode property `White_Space`.
pub open spec fn is_space(c: char) -> bool {
    let u = c as u32;
    ||| 0x9 <= u <= 0xd
    ||| u == 0x20
    ||| u == 0x85
    ||| u == 0xa0
    ||| u == 0x1680
    ||| 0x2000 <= u <= 0x200a
    ||| u == 0x2028
    ||| u == 0x2029
    ||| u == 0x202f
    ||| u == 0x205f
    ||| u == 0x3000
}

/// Whether `c` is a whitespace character.
pub fn is_white(c: char) -> (r: bool)
    ensures
        r == is_space(c),
        r <==> {
            let u = c as u32;
            ||| 9 <= u <= 13
            ||| u == 32
            ||| u == 133
            ||| u == 160
            ||| u == 5760
            ||| 8192 <= u <= 8202
            ||| u == 8232
            ||| u == 8233
            ||| u == 8239
            ||| u == 8287
            ||| u == 12288
        },
{
    let u: u32 = c as u32;
    (0x9 <= u && u <= 0xd) || u == 0x20 || u == 0x85 || u == 0xa0 || u == 0x1680 || (0x2000 <= u && u
        <= 0x200a) || u == 0x2028 || u == 0x2029 || u == 0x202f || u == 0x205f || u == 0x3000
}

/// Text made of whitespace only.
pub open spec fn blank(s: Text) -> bool {
    forall|i: int| 0 <= i < s.len() ==> is_space(#[trigger] s[i])
}

/// Whether nothing is left of `s` once whitespace is trimmed from both ends.
pub fn is_blank(s: &str) -> (r: bool)
    ensures
        r == blank(s@),
        r <==> forall|i: int| 0 <= i < s@.len() ==> is_space(#[trigger] s@[i]),
{
    let cs = chars_of(s);
    let mut i: usize = 0;
    while i < cs.len()
        invariant
            i <= cs.len(),
            cs@ == s@,
            forall|k: int| 0 <= k < i ==> is_space(#[trigger] s@[k]),
        decreases cs.len() - i,
    {
        if !is_white(cs[i]) {
            assert(!is_space(s@[i as int]));
            return false;
        }
        i += 1;
    }
    true
}

/// `s` without the whitespace at its end.
pub open spec fn trim_end(s: Text) -> Text
    decreases s.len(),
{
    if s.len() > 0 && is_space(s.last()) {
        trim_end(s.drop_last())
    } else {
        s
    }
}

/// `s` without the whitespace at its start.
pub open spec fn trim_start(s: Text) -> Text
    decreases s.len(),
{
    if s.len() > 0 && is_space(s[0]) {
        trim_start(s.drop_first())
    } else {
        s
    }
}

/// `s` without the whitespace at both ends.
pub fn trimmed(s: &str) -> (r: &str)
    ensures
        r@ == trim_end(trim_start(s@)),
{
    let cs = chars_of(s);
    let mut from: usize = 0;
    assert(cs@.skip(0) =~= cs@);
    while from < cs.len() && is_white(cs[from])
        invariant
            from <= cs.len(),
            trim_start(cs@) == trim_start(cs@.skip(from as int)),
        decreases cs.len() - from,
    {
        assert(cs@.skip(from as int).drop_first() =~= cs@.skip(from + 1));
        from += 1;
    }
    let mut to: usize = cs.len();
    assert(cs@.skip(from as int) =~= cs@.subrange(from as int, to as int));
    while to > from && is_white(cs[to - 1])
        invariant
            from <= to <= cs.len(),
            trim_end(cs@.skip(from as int)) == trim_end(cs@.subrange(from as int, to as int)),
        decreases to,
    {
        assert(cs@.subrange(from as int, to as int).drop_last() =~= cs@.subrange(
            from as int,
            to - 1,
        ));
        to -= 1;
    }
    s.substring_char(from, to)
}

/// The first position from `from` on whose character is whitespace (`space`) or is not
/// (`!space`); the length of `s` where there is none.
pub open spec fn next_space(s: Text, from: int, space: bool) -> int
    decreases s.len() - from,
{
    if from < 0 || from >= s.len() {
        s.len() as int
    } else if is_space(s[from]) == space {
        from
    } else {
        next_space(s, from + 1, space)
    }
}

/// The `n`-th (from zero) of the words of `s` from position `from` on, a word being a maximal
/// run of characters that are not whitespace. `None` where there are not that many.
pub open spec fn nth_word_from(s: Text, from: int, n: nat) -> Option<Text>
    decreases n,
{
    let start = next_space(s, from, false);
    if start >= s.len() {
        None
    } else {
        let end = next_space(s, start, true);
        if n == 0 {
            Some(s.subrange(start, end))
        } else {
            nth_word_from(s, end, (n - 1) as nat)
        }
    }
}

/// The `n`-th word of `s`, counting from zero.
pub open spec fn nth_word(s: Text, n: nat) -> Option<Text> {
    nth_word_from(s, 0, n)
}

fn find_space(cs: &Vec<char>, from: usize, space: bool) -> (r: usize)
    requires
        from <= cs.len(),
    ensures
        r == next_space(cs@, from as int, space),
        from <= r <= cs.len(),
{
    let mut i: usize = from;
    while i < cs.len() && is_white(cs[i]) != space
        invariant
            from <= i <= cs.len(),
            next_space(cs@, from as int, space) == next_space(cs@, i as int, space),
        decreases cs.len() - i,
    {
        i += 1;
    }
    i
}

/// The `n`-th whitespace-separated word of `s`, counting from zero.
pub fn word_at(s: &str, n: usize) -> (r: Option<&str>)
    ensures
        match r {
            Some(w) => nth_word(s@, n as nat) == Some(w@),
            None => nth_word(s@, n as nat) is None,
        },
{
    let cs = chars_of(s);
    let mut from: usize = 0;
    let mut left: usize = n;
    loop
        invariant
            cs@ == s@,
            from <= cs.len(),
            nth_word(s@, n as nat) == nth_word_from(s@, from as int, left as nat),
        decreases left,
    {
        let start = find_space(&cs, from, false);
        if start >= cs.len() {
            return None;
        }
        let end = find_space(&cs, start, true);
        if left == 0 {
            return Some(s.substring_char(start, end));
        }
        left -= 1;
        from = end;
    }
}

// ---------------------------------------------------------------------------
// Searching
// ---------------------------------------------------------------------------

/// The position of the first `c` in `s`; the length of `s` where there is none.
pub open spec fn first_index(s: Text, c: char) -> int
    decreases s.len(),
{
    if s.len() == 0 {
        0
    } else if s[0] == c {
        0
    } else {
        1 + first_index(s.drop_first(), c)
    }
}

/// The position of the last `c` in `s`; -1 where there is none.
pub open spec fn last_index(s: Text, c: char) -> int
    decreases s.len(),
{
    if s.len() == 0 {
        -1
    } else if s.last() == c {
        s.len() - 1
    } else {
        last_index(s.drop_last(), c)
    }
}

/// The position of the first `c`, or the number of characters where `c` does not occur.
pub fn find_first(cs: &Vec<char>, c: char) -> (r: usize)
    ensures
        r == first_index(cs@, c),
        r <= cs.len(),
        forall|i: int| 0 <= i < r ==> #[trigger] cs@[i] != c,
        r < cs.len() ==> cs@[r as int] == c,
{
    let mut i: usize = 0;
    assert(cs@.skip(0) =~= cs@);
    while i < cs.len() && cs[i] != c
        invariant
            i <= cs.len(),
            forall|k: int| 0 <= k < i ==> #[trigger] cs@[k] != c,
            first_index(cs@, c) == i + first_index(cs@.skip(i as int), c),
        decreases cs.len() - i,
    {
        assert(cs@.skip(i as int).drop_first() =~= cs@.skip(i + 1));
        i += 1;
    }
    i
}

/// The position of the last `c`, if `c` occurs.
pub fn find_last(cs: &Vec<char>, c: char) -> (r: Option<usize>)
    ensures
        match r {
            Some(i) => i == last_index(cs@, c) && i < cs.len() && cs[i as int] == c && forall|k: int|
                i < k < cs.len() ==> #[trigger] cs@[k] != c,
            None => last_index(cs@, c) == -1 && forall|k: int|
                0 <= k < cs.len() ==> #[trigger] cs@[k] != c,
        },
{
    let mut i: usize = cs.len();
    assert(cs@.take(cs.len() as int) =~= cs@);
    while i > 0
        invariant
            i <= cs.len(),
            forall|k: int| i <= k < cs.len() ==> #[trigger] cs@[k] != c,
            last_index(cs@, c) == last_index(cs@.take(i as int), c),
        decreases i,
    {
        assert(cs@.take(i as int).drop_last() =~= cs@.take(i - 1));
        i -= 1;
        if cs[i] == c {
            return Some(i);
        }
    }
    None
}

/// The first line of `s` without its line ending, which is a line feed or a carriage return
/// followed by a line feed. All of `s` where it holds no line feed.
pub open spec fn first_line(s: Text) -> Text {
    let end = first_index(s, '\n');
    if end < s.len() && end > 0 && s[end - 1] == '\r' {
        s.take(end - 1)
    } else {
        s.take(end)
    }
}

/// The first line of `s`, empty where `s` is empty.
pub fn line_one(s: &str) -> (r: &str)
    ensures
        r@ == first_line(s@),
{
    let cs = chars_of(s);
    let end = find_first(&cs, '\n');
    if end < cs.len() && end > 0 && cs[end - 1] == '\r' {
        s.substring_char(0, end - 1)
    } else {
        s.substring_char(0, end)
    }
}

/// Whether `s` starts with the characters of `prefix`.
pub open spec fn has_prefix(s: Text, prefix: Text) -> bool {
    prefix.len() <= s.len() && s.take(prefix.len() as int) == prefix
}

/// What follows `prefix` in `s`, if `s` starts with it.
pub fn after_prefix<'a>(s: &'a str, prefix: &str) -> (r: Option<&'a str>)
    ensures
        match r {
            Some(rest) => has_prefix(s@, prefix@) && s@ == prefix@ + rest@ && rest@ == s@.skip(
                prefix@.len() as int,
            ),
            None => !has_prefix(s@, prefix@),
        },
{
    let n = s.unicode_len();
    let k = prefix.unicode_len();
    if k <= n && same_text(s.substring_char(0, k), prefix) {
        Some(s.substring_char(k, n))
    } else {
        None
    }
}

/// A line without its ending, which is a line feed or a carriage return followed by one.
pub open spec fn chopped(line: Seq<u8>) -> Seq<u8> {
    if line.len() > 0 && line.last() == 10 {
        let s = line.drop_last();
        if s.len() > 0 && s.last() == 13 {
            s.drop_last()
        } else {
            s
        }
    } else {
        line
    }
}

// ---------------------------------------------------------------------------
// Renderings of the standard library
// ---------------------------------------------------------------------------

/// What `{:?}` prints of a string: quotes around it, and escapes inside.
pub uninterp spec fn debug_form(s: Text) -> Text;

/// What `String::from_utf8_lossy` reads out of bytes.
pub uninterp spec fn lossy_form(bytes: Seq<u8>) -> Text;

/// Bytes that are valid UTF-8 read as the text that they encode.
pub open spec fn reads_plainly(bytes: Seq<u8>) -> bool {
    valid_utf8(bytes) ==> lossy_form(bytes) == decode_utf8(bytes)
}

/// Calls `format!` with `{:?}` on a string. The contract names the result, which depends on
/// the string alone, and claims nothing else of it.
#[verifier::external_body]
pub(crate) fn debug_text(s: &str) -> (r: String)
    ensures
        r@ == debug_form(s@),
{
    format!("{:?}", s)
}

/// Calls `String::from_utf8_lossy`. The contract names the result, which depends on the bytes
/// alone, and claims that bytes which are valid UTF-8 are read as the text they encode.
#[verifier::external_body]
fn lossy_text(bytes: &[u8]) -> (r: String)
    ensures
        r@ == lossy_form(bytes@),
        valid_utf8(bytes@) ==> encode_utf8(r@) == bytes@,
{
    String::from_utf8_lossy(bytes).into_owned()
}

/// The text that bytes hold.
pub fn text_of(bytes: &[u8]) -> (r: String)
    ensures
        r@ == lossy_form(bytes@),
        reads_plainly(bytes@),
{
    let r = lossy_text(bytes);
    proof {
        encode_utf8_decode_utf8(r@);
    }
    r
}

/// The text of one line of output, without its ending. Bytes that are no text do not stop it.
pub fn line_text(line: &[u8]) -> (r: String)
    ensures
        r@ == lossy_form(chopped(line@)),
        reads_plainly(chopped(line@)),
{
    let n = line.len();
    let end: usize = if n > 0 && line[n - 1] == 10 {
        if n > 1 && line[n - 2] == 13 {
            n - 2
        } else {
            n - 1
        }
    } else {
        n
    };
    let shown = slice_subrange(line, 0, end);
    assert(shown@ =~= chopped(line@));
    text_of(shown)
}

// ---------------------------------------------------------------------------
// Laws
// ---------------------------------------------------------------------------

/// The order is decided by the first place where two texts differ: what they begin with in common
/// does not matter; behind that the smaller character comes first, and the end of a text comes
/// before any character.
pub proof fn law_order_is_decided_by_the_first_difference(p: Text, a: Text, b: Text)
    ensures
        text_lt(p + a, p + b) <==> text_lt(a, b),
        a.len() == 0 ==> (text_lt(a, b) <==> b.len() > 0),
        b.len() == 0 ==> !text_lt(a, b),
        a.len() > 0 && b.len() > 0 && a[0] != b[0] ==> (text_lt(a, b) <==> a[0] < b[0]),
    decreases p.len(),
{
    if p.len() == 0 {
        assert(p + a =~= a);
        assert(p + b =~= b);
    } else {
        law_order_is_decided_by_the_first_difference(p.drop_first(), a, b);
        assert((p + a).drop_first() =~= p.drop_first() + a);
        assert((p + b).drop_first() =~= p.drop_first() + b);
    }
}

/// Trimming takes away whitespace, and nothing else, from both ends: whitespace around a text
/// that neither begins nor ends with it goes, and such a text stays whole.
pub proof fn law_trimming_takes_whitespace_only(a: Text, s: Text, b: Text)
    requires
        forall|i: int| 0 <= i < a.len() ==> is_space(#[trigger] a[i]),
        forall|i: int| 0 <= i < b.len() ==> is_space(#[trigger] b[i]),
        s.len() == 0 || (!is_space(s[0]) && !is_space(s.last())),
    ensures
        trim_end(trim_start(a + s + b)) == s,
    decreases a.len() + b.len(),
{
    let t = a + s + b;
    if a.len() > 0 {
        assert(t[0] == a[0]);
        assert(t.drop_first() =~= a.drop_first() + s + b);
        assert forall|i: int| 0 <= i < a.drop_first().len() implies is_space(
            #[trigger] a.drop_first()[i],
        ) by {
            assert(a.drop_first()[i] == a[i + 1]);
        }
        law_trimming_takes_whitespace_only(a.drop_first(), s, b);
    } else if s.len() == 0 {
        assert(t =~= b);
        if b.len() > 0 {
            assert(is_space(b[0]));
            assert(b.drop_first() =~= a + s + b.drop_first());
            assert forall|i: int| 0 <= i < b.drop_first().len() implies is_space(
                #[trigger] b.drop_first()[i],
            ) by {
                assert(b.drop_first()[i] == b[i + 1]);
            }
            law_trimming_takes_whitespace_only(a, s, b.drop_first());
        } else {
            assert(t =~= s);
        }
    } else {
        assert(t =~= s + b);
        assert(t[0] == s[0]);
        assert(trim_start(t) == t);
        lemma_trim_end(s, b);
    }
}

proof fn lemma_trim_end(s: Text, b: Text)
    requires
        s.len() > 0,
        !is_space(s.last()),
        forall|i: int| 0 <= i < b.len() ==> is_space(#[trigger] b[i]),
    ensures
        trim_end(s + b) == s,
    decreases b.len(),
{
    if b.len() == 0 {
        assert(s + b =~= s);
    } else {
        assert((s + b).last() == b[b.len() - 1]);
        assert((s + b).drop_last() =~= s + b.drop_last());
        lemma_trim_end(s, b.drop_last());
    }
}

/// Words are what stands between whitespace: behind whitespace of any length comes the first
/// word, up to the next whitespace, and the words that follow are those of the rest. A text of
/// whitespace only has none.
pub proof fn law_words_stand_between_whitespace(lead: Text, w: Text, rest: Text, n: nat)
    requires
        forall|i: int| 0 <= i < lead.len() ==> is_space(#[trigger] lead[i]),
        forall|i: int| 0 <= i < w.len() ==> !is_space(#[trigger] w[i]),
        w.len() > 0,
        rest.len() > 0 ==> is_space(rest[0]),
    ensures
        nth_word(lead + w + rest, 0) == Some(w),
        nth_word(lead + w + rest, n + 1) == nth_word(rest, n),
        nth_word(lead, n) is None,
{
    let s = lead + w + rest;
    let a = lead.len() as int;
    let b = a + w.len();
    lemma_next_space(s, 0, a, false);
    lemma_next_space(s, a, b, true);
    assert(s.subrange(a, b) =~= w);
    assert(nth_word_from(s, 0, n + 1) == nth_word_from(s, b, n));
    lemma_words_of_rest(s, rest, b, 0, n);
    lemma_next_space(lead, 0, a, false);
}

proof fn lemma_next_space(s: Text, from: int, to: int, space: bool)
    requires
        0 <= from <= to <= s.len(),
        forall|i: int| from <= i < to ==> is_space(#[trigger] s[i]) != space,
        to < s.len() ==> is_space(s[to]) == space,
    ensures
        next_space(s, from, space) == to,
    decreases to - from,
{
    if from < to {
        assert(is_space(s[from]) != space);
        lemma_next_space(s, from + 1, to, space);
    }
}

proof fn lemma_space_shift(s: Text, rest: Text, b: int, from: int, space: bool)
    requires
        0 <= b <= s.len(),
        rest == s.skip(b),
        0 <= from <= rest.len(),
    ensures
        next_space(s, b + from, space) == b + next_space(rest, from, space),
        from <= next_space(rest, from, space) <= rest.len(),
    decreases rest.len() - from,
{
    if from < rest.len() {
        assert(rest[from] == s[b + from]);
        if is_space(rest[from]) != space {
            lemma_space_shift(s, rest, b, from + 1, space);
        }
    }
}

proof fn lemma_words_of_rest(s: Text, rest: Text, b: int, from: int, n: nat)
    requires
        0 <= b <= s.len(),
        rest =~= s.skip(b),
        0 <= from <= rest.len(),
    ensures
        nth_word_from(s, b + from, n) == nth_word_from(rest, from, n),
    decreases n,
{
    lemma_space_shift(s, rest, b, from, false);
    let start = next_space(rest, from, false);
    if start < rest.len() {
        lemma_space_shift(s, rest, b, start, true);
        let end = next_space(rest, start, true);
        assert(s.subrange(b + start, b + end) =~= rest.subrange(start, end));
        if n > 0 {
            lemma_words_of_rest(s, rest, b, end, (n - 1) as nat);
        }
    }
}

/// Searching finds the first and the last place: in front of the first, and behind the last,
/// the character does not occur.
pub proof fn law_searching_finds_both_ends(a: Text, c: char, b: Text)
    ensures
        !a.contains(c) ==> first_index(a + seq![c] + b, c) == a.len(),
        !b.contains(c) ==> last_index(a + seq![c] + b, c) == a.len(),
        !a.contains(c) ==> first_index(a, c) == a.len() && last_index(a, c) == -1,
    decreases a.len() + b.len(),
{
    let s = a + seq![c] + b;
    if !a.contains(c) {
        if a.len() > 0 {
            assert(a.contains(a[0]));
            assert forall|x: char| a.drop_first().contains(x) implies a.contains(x) by {
                assert(a[a.drop_first().index_of(x) + 1] == x);
            }
            law_searching_finds_both_ends(a.drop_first(), c, b);
            assert(s.drop_first() =~= a.drop_first() + seq![c] + b);
            assert(s[0] == a[0]);
            lemma_last_absent(a, c);
        } else {
            assert(s[0] == c);
        }
    }
    if !b.contains(c) {
        if b.len() > 0 {
            assert(b.contains(b[b.len() - 1]));
            assert forall|x: char| b.drop_last().contains(x) implies b.contains(x) by {
                assert(b[b.drop_last().index_of(x)] == x);
            }
            law_searching_finds_both_ends(a, c, b.drop_last());
            assert(s.drop_last() =~= a + seq![c] + b.drop_last());
            assert(s.last() == b.last());
        } else {
            assert(s.last() == c);
        }
    }
}

proof fn lemma_last_absent(a: Text, c: char)
    requires
        !a.contains(c),
    ensures
        last_index(a, c) == -1,
    decreases a.len(),
{
    if a.len() > 0 {
        assert(a.contains(a[a.len() - 1]));
        assert forall|x: char| a.drop_last().contains(x) implies a.contains(x) by {
            assert(a[a.drop_last().index_of(x)] == x);
        }
        lemma_last_absent(a.drop_last(), c);
    }
}

/// The first line is all that stands before the first line feed, but for a carriage return right
/// before it; a text without a line feed is one line.
pub proof fn law_the_first_line_ends_at_the_line_feed(a: Text, b: Text)
    requires
        !a.contains('\n'),
    ensures
        first_line(a) == a,
        a.len() == 0 || a.last() != '\r' ==> first_line(a + seq!['\n'] + b) == a,
        first_line(a + seq!['\r'] + seq!['\n'] + b) == a,
{
    law_searching_finds_both_ends(a, '\n', b);
    let s = a + seq!['\n'] + b;
    assert(s.take(a.len() as int) =~= a);
    assert(a.take(a.len() as int) =~= a);
    if a.len() > 0 {
        assert(s[a.len() - 1] == a.last());
    }
    let c = a + seq!['\r'];
    assert(!c.contains('\n')) by {
        if c.contains('\n') {
            let k = c.index_of('\n');
            assert(k < a.len());
            assert(a[k] == '\n');
        }
    }
    law_searching_finds_both_ends(c, '\n', b);
    let t = c + seq!['\n'] + b;
    assert(t[c.len() - 1] == '\r');
    assert(t.take(c.len() - 1) =~= a);
}

/// A line of output loses its ending and nothing else.
pub proof fn law_only_the_ending_is_chopped(line: Seq<u8>)
    ensures
        line.len() == 0 || line.last() != 13 ==> chopped(line.push(10)) == line,
        chopped(line.push(13).push(10)) == line,
        line.len() == 0 || line.last() != 10 ==> chopped(line) == line,
{
    assert(line.push(10).drop_last() =~= line);
    assert(line.push(13).push(10).drop_last() =~= line.push(13));
    assert(line.push(13).drop_last() =~= line);
}

/// Views are taken one by one, in order.
pub proof fn law_views_are_taken_one_by_one(strings: Seq<String>, s: String, k: int)
    ensures
        views(strings).len() == strings.len(),
        0 <= k < strings.len() ==> views(strings)[k] == strings[k]@,
        opt_view(Some(s)) == Some(s@),
        opt_view(None) is None,
{
}

/// A text has the prefix that stands in front of it, whatever follows, and no other of that
/// length.
pub proof fn law_a_prefix_stands_in_front(prefix: Text, rest: Text, other: Text)
    ensures
        has_prefix(prefix + rest, prefix),
        other.len() == prefix.len() && other != prefix ==> !has_prefix(prefix + rest, other),
        rest.len() > 0 ==> !has_prefix(prefix, prefix + rest),
{
    assert((prefix + rest).take(prefix.len() as int) =~= prefix);
}

} // verus!
