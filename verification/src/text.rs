//! Character-level vocabulary shared by the readers and writers: whitespace,
//! trimming, searching, splitting into lines, and the conversions between
//! bytes, `str` and sequences of `char`.

use vstd::prelude::*;
use vstd::slice::slice_subrange;
use vstd::string::StringSliceAdditionalSpecFns;
use vstd::utf8::{
    decode_utf8, decode_utf8_encode_utf8, encode_scalar, encode_utf8, encode_utf8_decode_utf8,
    encode_utf8_valid_utf8, has_width_1_encoding, valid_utf8,
};

verus! {

/// The characters with the Unicode `White_Space` property. These are the
/// characters that trimming removes.
pub open spec fn is_whitespace(c: char) -> bool {
    let u = c as u32;
    ||| 0x09 <= u <= 0x0D
    ||| u == 0x20
    ||| u == 0x85
    ||| u == 0xA0
    ||| u == 0x1680
    ||| 0x2000 <= u <= 0x200A
    ||| u == 0x2028
    ||| u == 0x2029
    ||| u == 0x202F
    ||| u == 0x205F
    ||| u == 0x3000
}

/// Number of whitespace characters at the front of `s`.
pub open spec fn leading_whitespace(s: Seq<char>) -> nat
    decreases s.len(),
{
    if s.len() > 0 && is_whitespace(s[0]) {
        1 + leading_whitespace(s.drop_first())
    } else {
        0
    }
}

/// Number of whitespace characters at the back of `s`.
pub open spec fn trailing_whitespace(s: Seq<char>) -> nat
    decreases s.len(),
{
    if s.len() > 0 && is_whitespace(s.last()) {
        1 + trailing_whitespace(s.drop_last())
    } else {
        0
    }
}

/// `s` without its leading whitespace.
pub open spec fn trim_start(s: Seq<char>) -> Seq<char> {
    s.subrange(leading_whitespace(s) as int, s.len() as int)
}

/// `s` without its trailing whitespace.
pub open spec fn trim_end(s: Seq<char>) -> Seq<char> {
    s.subrange(0, s.len() - trailing_whitespace(s))
}

/// `s` without leading and trailing whitespace.
pub open spec fn trim(s: Seq<char>) -> Seq<char> {
    trim_end(trim_start(s))
}

/// A text is trimmed when neither end is whitespace. The empty text is trimmed.
pub open spec fn is_trimmed(s: Seq<char>) -> bool {
    s.len() > 0 ==> !is_whitespace(s[0]) && !is_whitespace(s.last())
}

/// Index of the first occurrence of `x` in `s`, or `s.len()` when there is none.
pub open spec fn position<T>(s: Seq<T>, x: T) -> int
    decreases s.len(),
{
    if s.len() == 0 || s[0] == x {
        0
    } else {
        1 + position(s.drop_first(), x)
    }
}

/// The pieces of `s` that end at each `x`, which is not part of them; a last
/// piece without `x` behind it counts, an empty remainder does not.
pub open spec fn split<T>(s: Seq<T>, x: T) -> Seq<Seq<T>>
    decreases s.len(),
{
    if s.len() == 0 {
        Seq::empty()
    } else {
        let k = position(s, x);
        if 0 <= k < s.len() {
            seq![s.subrange(0, k)] + split(s.subrange(k + 1, s.len() as int), x)
        } else {
            seq![s]
        }
    }
}

/// The lines of a text. A line ends at `'\n'`, which is not part of it; a last
/// line without terminator counts, an empty remainder does not.
pub open spec fn lines(s: Seq<char>) -> Seq<Seq<char>> {
    split(s, '\n')
}

/// The byte that encodes the line terminator.
pub const NEWLINE: u8 = 0x0A;

/// The lines of a text that is given as bytes.
pub open spec fn byte_lines(s: Seq<u8>) -> Seq<Seq<u8>> {
    split(s, NEWLINE)
}

/// The text of each line of bytes, for bytes that are UTF-8.
pub open spec fn decoded(ls: Seq<Seq<u8>>) -> Seq<Seq<char>> {
    Seq::new(ls.len(), |i: int| decode_utf8(ls[i]))
}

/// The bytes of each line of a text.
pub open spec fn encoded(ls: Seq<Seq<char>>) -> Seq<Seq<u8>> {
    Seq::new(ls.len(), |i: int| encode_utf8(ls[i]))
}

/// `leading_whitespace` is the only index that splits `s` into a run of
/// whitespace and a rest that does not start with whitespace.
pub proof fn lemma_leading_whitespace(s: Seq<char>, k: int)
    requires
        0 <= k <= s.len(),
        forall|j: int| 0 <= j < k ==> is_whitespace(#[trigger] s[j]),
        k < s.len() ==> !is_whitespace(s[k]),
    ensures
        leading_whitespace(s) == k,
    decreases s.len(),
{
    if s.len() > 0 && k > 0 {
        let rest = s.drop_first();
        assert forall|j: int| 0 <= j < k - 1 implies is_whitespace(#[trigger] rest[j]) by {
            assert(rest[j] == s[j + 1]);
        }
        lemma_leading_whitespace(rest, k - 1);
    }
}

/// What `leading_whitespace` returns splits `s` as `lemma_leading_whitespace` says.
pub proof fn lemma_leading_whitespace_bounds(s: Seq<char>)
    ensures
        leading_whitespace(s) <= s.len(),
        forall|j: int| 0 <= j < leading_whitespace(s) ==> is_whitespace(#[trigger] s[j]),
        leading_whitespace(s) < s.len() ==> !is_whitespace(s[leading_whitespace(s) as int]),
    decreases s.len(),
{
    if s.len() > 0 && is_whitespace(s[0]) {
        let rest = s.drop_first();
        lemma_leading_whitespace_bounds(rest);
        assert forall|j: int| 0 <= j < leading_whitespace(s) implies is_whitespace(
            #[trigger] s[j],
        ) by {
            if j > 0 {
                assert(s[j] == rest[j - 1]);
            }
        }
    }
}

/// `trailing_whitespace` is the only count that splits `s` into a front that
/// does not end with whitespace and a run of whitespace.
pub proof fn lemma_trailing_whitespace(s: Seq<char>, k: int)
    requires
        0 <= k <= s.len(),
        forall|j: int| s.len() - k <= j < s.len() ==> is_whitespace(#[trigger] s[j]),
        k < s.len() ==> !is_whitespace(s[s.len() - k - 1]),
    ensures
        trailing_whitespace(s) == k,
    decreases s.len(),
{
    if s.len() > 0 && k > 0 {
        let rest = s.drop_last();
        assert forall|j: int| rest.len() - (k - 1) <= j < rest.len() implies is_whitespace(
            #[trigger] rest[j],
        ) by {
            assert(rest[j] == s[j]);
        }
        lemma_trailing_whitespace(rest, k - 1);
    }
}

/// What `trailing_whitespace` returns splits `s` as `lemma_trailing_whitespace` says.
pub proof fn lemma_trailing_whitespace_bounds(s: Seq<char>)
    ensures
        trailing_whitespace(s) <= s.len(),
        forall|j: int|
            s.len() - trailing_whitespace(s) <= j < s.len() ==> is_whitespace(#[trigger] s[j]),
        trailing_whitespace(s) < s.len() ==> !is_whitespace(
            s[s.len() - trailing_whitespace(s) - 1],
        ),
    decreases s.len(),
{
    if s.len() > 0 && is_whitespace(s.last()) {
        let rest = s.drop_last();
        lemma_trailing_whitespace_bounds(rest);
        assert forall|j: int| s.len() - trailing_whitespace(s) <= j < s.len() implies is_whitespace(
            #[trigger] s[j],
        ) by {
            if j < s.len() - 1 {
                assert(s[j] == rest[j]);
            }
        }
    }
}

/// Trimming yields a trimmed text, and leaves a trimmed text as it is.
pub proof fn lemma_trim(s: Seq<char>)
    ensures
        is_trimmed(trim(s)),
        trim_start(s).len() > 0 ==> !is_whitespace(trim_start(s)[0]),
        is_trimmed(s) ==> trim(s) == s,
        trim(s).len() > 0 <==> trim_start(s).len() > 0,
{
    lemma_leading_whitespace_bounds(s);
    let front = trim_start(s);
    lemma_trailing_whitespace_bounds(front);
    if front.len() > 0 && trailing_whitespace(front) == front.len() {
        assert(is_whitespace(front[0]));
    }
    if is_trimmed(s) {
        assert(front =~= s);
        assert(trim_end(s) =~= s);
    }
}

/// `position` finds the first occurrence, or the length where there is none.
pub proof fn lemma_position<T>(s: Seq<T>, x: T)
    ensures
        0 <= position(s, x) <= s.len(),
        forall|j: int| 0 <= j < position(s, x) ==> #[trigger] s[j] != x,
        position(s, x) < s.len() ==> s[position(s, x)] == x,
    decreases s.len(),
{
    if s.len() > 0 && s[0] != x {
        let rest = s.drop_first();
        lemma_position(rest, x);
        assert forall|j: int| 0 <= j < position(s, x) implies #[trigger] s[j] != x by {
            if j > 0 {
                assert(s[j] == rest[j - 1]);
            }
        }
    }
}

/// An index with `x` before which `x` does not occur is the `position` of `x`.
pub proof fn lemma_position_is<T>(s: Seq<T>, x: T, k: int)
    requires
        0 <= k <= s.len(),
        forall|j: int| 0 <= j < k ==> #[trigger] s[j] != x,
        k < s.len() ==> s[k] == x,
    ensures
        position(s, x) == k,
{
    lemma_position(s, x);
    let p = position(s, x);
    if p < k {
        assert(s[p] != x);
    } else if p > k {
        assert(s[k] != x);
    }
}

/// The bytes of a character hold the byte of the line terminator only where
/// the character is the line terminator.
pub proof fn lemma_scalar_bytes(c: char)
    ensures
        c == '\n' ==> encode_scalar(c as u32) == seq![NEWLINE],
        c != '\n' ==> !encode_scalar(c as u32).contains(NEWLINE),
        encode_scalar(c as u32).len() > 0,
{
    let v = c as u32;
    let bytes = encode_scalar(v);
    if has_width_1_encoding(v) {
        assert((v & 0x7F) as u8 == v) by (bit_vector)
            requires
                v <= 0x7F,
        ;
        if c == '\n' {
            assert(bytes =~= seq![NEWLINE]);
        }
    } else {
        let a = ((v >> 6) & 0x1F) as u8;
        let b = ((v >> 12) & 0x0F) as u8;
        let d = ((v >> 18) & 0x7) as u8;
        let e = (v & 0x3F) as u8;
        let f = ((v >> 6) & 0x3F) as u8;
        let g = ((v >> 12) & 0x3F) as u8;
        assert(0xC0u8 | a != 0x0A) by (bit_vector);
        assert(0xE0u8 | b != 0x0A) by (bit_vector);
        assert(0xF0u8 | d != 0x0A) by (bit_vector);
        assert(0x80u8 | e != 0x0A) by (bit_vector);
        assert(0x80u8 | f != 0x0A) by (bit_vector);
        assert(0x80u8 | g != 0x0A) by (bit_vector);
    }
    if c != '\n' {
        assert forall|i: int| 0 <= i < bytes.len() implies bytes[i] != NEWLINE by {}
    }
}

/// The bytes of two texts, one after the other, are the bytes of the one
/// followed by the bytes of the other.
pub proof fn lemma_encode_concat(a: Seq<char>, b: Seq<char>)
    ensures
        encode_utf8(a + b) == encode_utf8(a) + encode_utf8(b),
    decreases a.len(),
{
    if a.len() == 0 {
        assert(a + b =~= b);
        assert(encode_utf8(a) + encode_utf8(b) =~= encode_utf8(b));
    } else {
        assert((a + b).drop_first() =~= a.drop_first() + b);
        lemma_encode_concat(a.drop_first(), b);
        assert(encode_utf8(a + b) =~= encode_utf8(a) + encode_utf8(b));
    }
}

/// The bytes of a text on one line do not hold the byte of the line
/// terminator, and a text that is not empty has bytes.
pub proof fn lemma_encode_one_line(text: Seq<char>)
    requires
        !text.contains('\n'),
    ensures
        !encode_utf8(text).contains(NEWLINE),
        text.len() > 0 ==> encode_utf8(text).len() > 0,
    decreases text.len(),
{
    if text.len() > 0 {
        let rest = text.drop_first();
        assert(text[0] != '\n');
        assert forall|j: int| 0 <= j < rest.len() implies rest[j] != '\n' by {
            assert(rest[j] == text[j + 1]);
        }
        lemma_scalar_bytes(text[0]);
        lemma_encode_one_line(rest);
        let head = encode_scalar(text[0] as u32);
        let tail = encode_utf8(rest);
        assert forall|i: int| 0 <= i < (head + tail).len() implies (head + tail)[i] != NEWLINE by {
            if i < head.len() {
                assert((head + tail)[i] == head[i]);
            } else {
                assert((head + tail)[i] == tail[i - head.len()]);
            }
        }
    }
}

/// The lines of the bytes of a text are the bytes of the lines of the text.
pub proof fn lemma_byte_lines(text: Seq<char>)
    ensures
        byte_lines(encode_utf8(text)) == encoded(lines(text)),
    decreases text.len(),
{
    let bytes = encode_utf8(text);
    if text.len() == 0 {
        assert(byte_lines(bytes) =~= encoded(lines(text)));
    } else {
        lemma_position(text, '\n');
        let k = position(text, '\n');
        let first = text.subrange(0, k);
        assert forall|j: int| 0 <= j < first.len() implies first[j] != '\n' by {
            assert(first[j] == text[j]);
        }
        lemma_encode_one_line(first);
        let head = encode_utf8(first);
        if k < text.len() {
            let rest = text.subrange(k + 1, text.len() as int);
            assert(text =~= first + seq!['\n'] + rest);
            lemma_encode_concat(first + seq!['\n'], rest);
            lemma_encode_concat(first, seq!['\n']);
            lemma_scalar_bytes('\n');
            assert(seq!['\n'].drop_first() =~= Seq::<char>::empty());
            assert(encode_utf8(seq!['\n']) =~= seq![NEWLINE]) by {
                reveal_with_fuel(encode_utf8, 2);
            }
            assert(bytes =~= head + seq![NEWLINE] + encode_utf8(rest));
            assert forall|j: int| 0 <= j < head.len() implies #[trigger] bytes[j] != NEWLINE by {
                assert(bytes[j] == head[j]);
            }
            lemma_position_is(bytes, NEWLINE, head.len() as int);
            assert(bytes.subrange(0, head.len() as int) =~= head);
            assert(bytes.subrange(head.len() as int + 1, bytes.len() as int) =~= encode_utf8(rest));
            lemma_byte_lines(rest);
            assert(byte_lines(bytes) =~= encoded(lines(text)));
        } else {
            assert(first =~= text);
            assert forall|j: int| 0 <= j < bytes.len() implies #[trigger] bytes[j] != NEWLINE by {}
            lemma_position_is(bytes, NEWLINE, bytes.len() as int);
            assert(byte_lines(bytes) =~= encoded(lines(text)));
        }
    }
}

/// The lines of bytes that are UTF-8 are UTF-8, and hold the lines of the
/// text that the bytes hold.
pub proof fn lemma_byte_lines_decoded(bytes: Seq<u8>)
    requires
        valid_utf8(bytes),
    ensures
        decoded(byte_lines(bytes)) == lines(decode_utf8(bytes)),
        forall|i: int| 0 <= i < byte_lines(bytes).len() ==> valid_utf8(#[trigger] byte_lines(bytes)[i]),
{
    let text = decode_utf8(bytes);
    decode_utf8_encode_utf8(bytes);
    lemma_byte_lines(text);
    let ls = lines(text);
    assert forall|i: int| 0 <= i < ls.len() implies valid_utf8(#[trigger] encoded(ls)[i])
        && decode_utf8(encoded(ls)[i]) == ls[i] by {
        encode_utf8_valid_utf8(ls[i]);
        encode_utf8_decode_utf8(ls[i]);
    }
    assert(decoded(byte_lines(bytes)) =~= ls);
}

/// Whether `c` is one of the `White_Space` characters.
pub fn char_is_whitespace(c: char) -> (b: bool)
    ensures
        b == is_whitespace(c),
{
    let u: u32 = c as u32;
    (0x09 <= u && u <= 0x0D) || u == 0x20 || u == 0x85 || u == 0xA0 || u == 0x1680 || (0x2000 <= u
        && u <= 0x200A) || u == 0x2028 || u == 0x2029 || u == 0x202F || u == 0x205F || u == 0x3000
}

/// The part of `s` behind its leading whitespace.
pub fn skip_start(s: &[char]) -> (r: &[char])
    ensures
        r@ == trim_start(s@),
{
    let n: usize = s.len();
    let mut i: usize = 0;
    while i < n && char_is_whitespace(s[i])
        invariant
            i <= n,
            n == s@.len(),
            forall|j: int| 0 <= j < i ==> is_whitespace(#[trigger] s@[j]),
        decreases n - i,
    {
        i += 1;
    }
    proof {
        lemma_leading_whitespace(s@, i as int);
    }
    slice_subrange(s, i, n)
}

/// The part of `s` before its trailing whitespace.
pub fn skip_end(s: &[char]) -> (r: &[char])
    ensures
        r@ == trim_end(s@),
{
    let n: usize = s.len();
    let mut i: usize = n;
    while i > 0 && char_is_whitespace(s[i - 1])
        invariant
            i <= n,
            n == s@.len(),
            forall|j: int| i <= j < n ==> is_whitespace(#[trigger] s@[j]),
        decreases i,
    {
        i -= 1;
    }
    proof {
        lemma_trailing_whitespace(s@, n - i);
    }
    slice_subrange(s, 0, i)
}

/// The part of `s` between its leading and its trailing whitespace.
pub fn skip_both(s: &[char]) -> (r: &[char])
    ensures
        r@ == trim(s@),
{
    skip_end(skip_start(s))
}

/// Index of the first `c` in `s`, or the length of `s`.
pub fn find(s: &[char], c: char) -> (k: usize)
    ensures
        k == position(s@, c),
{
    let n: usize = s.len();
    let mut i: usize = 0;
    while i < n && s[i] != c
        invariant
            i <= n,
            n == s@.len(),
            forall|j: int| 0 <= j < i ==> #[trigger] s@[j] != c,
        decreases n - i,
    {
        i += 1;
    }
    proof {
        lemma_position_is(s@, c, i as int);
    }
    i
}

/// Index of the first `b` in `s`, or the length of `s`.
pub fn find_byte(s: &[u8], b: u8) -> (k: usize)
    ensures
        k == position(s@, b),
{
    let n: usize = s.len();
    let mut i: usize = 0;
    while i < n && s[i] != b
        invariant
            i <= n,
            n == s@.len(),
            forall|j: int| 0 <= j < i ==> #[trigger] s@[j] != b,
        decreases n - i,
    {
        i += 1;
    }
    proof {
        lemma_position_is(s@, b, i as int);
    }
    i
}

/// The lines of `src`, in order.
pub fn split_lines(src: &[u8]) -> (ls: Vec<&[u8]>)
    ensures
        ls@.len() == byte_lines(src@).len(),
        forall|i: int| 0 <= i < ls@.len() ==> (#[trigger] ls@[i])@ == byte_lines(src@)[i],
{
    let n: usize = src.len();
    let mut ls: Vec<&[u8]> = Vec::new();
    let mut i: usize = 0;
    let ghost mut done: Seq<Seq<u8>> = Seq::empty();
    proof {
        assert(src@.subrange(0, n as int) =~= src@);
        assert(done + byte_lines(src@) =~= byte_lines(src@));
    }
    while i < n
        invariant
            i <= n,
            n == src@.len(),
            ls@.len() == done.len(),
            forall|j: int| 0 <= j < ls@.len() ==> (#[trigger] ls@[j])@ == done[j],
            byte_lines(src@) == done + byte_lines(src@.subrange(i as int, n as int)),
        decreases n - i,
    {
        let rest = slice_subrange(src, i, n);
        let k: usize = find_byte(rest, NEWLINE);
        proof {
            lemma_position(rest@, NEWLINE);
        }
        let raw = slice_subrange(rest, 0, k);
        let ghost tail = if k < rest@.len() {
            byte_lines(rest@.subrange(k + 1, rest@.len() as int))
        } else {
            Seq::empty()
        };
        proof {
            if k >= rest@.len() {
                assert(raw@ =~= rest@);
            }
            assert(byte_lines(rest@) =~= seq![raw@] + tail);
            assert(byte_lines(src@) =~= done.push(raw@) + tail);
        }
        ls.push(raw);
        proof {
            done = done.push(raw@);
            if k < rest@.len() {
                assert(rest@.subrange(k + 1, rest@.len() as int) =~= src@.subrange(
                    i + k + 1,
                    n as int,
                ));
            } else {
                assert(src@.subrange(n as int, n as int) =~= Seq::<u8>::empty());
            }
        }
        i = if k < n - i {
            i + k + 1
        } else {
            n
        };
    }
    proof {
        assert(src@.subrange(n as int, n as int) =~= Seq::<u8>::empty());
        assert(done + Seq::<Seq<u8>>::empty() =~= done);
    }
    ls
}

/// `String::push`: appends one character.
#[verifier::external_body]
fn push_char(s: &mut String, c: char)
    ensures
        final(s)@ == old(s)@.push(c),
{
    s.push(c);
}

/// `core::str::from_utf8`: succeeds exactly on well-formed UTF-8, and then
/// hands back the same bytes as text.
#[verifier::external_body]
fn from_utf8(bytes: &[u8]) -> (r: Option<&str>)
    ensures
        r is Some <==> valid_utf8(bytes@),
        r matches Some(s) ==> s.spec_bytes() == bytes@,
{
    core::str::from_utf8(bytes).ok()
}

/// Appends the characters of `chars` to `out`.
pub fn append_chars(out: &mut String, chars: &[char])
    ensures
        final(out)@ == old(out)@ + chars@,
{
    let n: usize = chars.len();
    let mut i: usize = 0;
    while i < n
        invariant
            i <= n,
            n == chars@.len(),
            out@ == old(out)@ + chars@.subrange(0, i as int),
        decreases n - i,
    {
        push_char(out, chars[i]);
        proof {
            assert(chars@.subrange(0, i + 1) =~= chars@.subrange(0, i as int).push(chars@[i as int]));
        }
        i += 1;
    }
    proof {
        assert(chars@.subrange(0, n as int) =~= chars@);
    }
}

/// Appends `count` copies of `c` to `out`.
pub fn append_repeated(out: &mut String, c: char, count: usize)
    ensures
        final(out)@ == old(out)@ + Seq::new(count as nat, |i: int| c),
{
    let mut i: usize = 0;
    while i < count
        invariant
            i <= count,
            out@ == old(out)@ + Seq::new(i as nat, |j: int| c),
        decreases count - i,
    {
        push_char(out, c);
        proof {
            assert(Seq::new((i + 1) as nat, |j: int| c) =~= Seq::new(i as nat, |j: int| c).push(c));
        }
        i += 1;
    }
}

/// A `String` with the characters of `chars`.
pub fn string_of(chars: &[char]) -> (s: String)
    ensures
        s@ == chars@,
{
    let mut s = String::new();
    append_chars(&mut s, chars);
    s
}

/// The characters of `s`.
pub fn chars_of(s: &str) -> (v: Vec<char>)
    ensures
        v@ == s@,
{
    let mut v: Vec<char> = Vec::new();
    for c in it: s.chars()
        invariant
            v@ == it.history(),
    {
        v.push(c);
    }
    v
}

/// The characters that `bytes` encode, or `None` where `bytes` is not UTF-8.
pub fn decode(bytes: &[u8]) -> (r: Option<Vec<char>>)
    ensures
        r is Some <==> valid_utf8(bytes@),
        r matches Some(v) ==> v@ == decode_utf8(bytes@),
{
    match from_utf8(bytes) {
        Some(s) => {
            let v = chars_of(s);
            proof {
                encode_utf8_decode_utf8(s@);
            }
            Some(v)
        },
        None => None,
    }
}

/// Whether two texts hold the same characters.
pub fn same_text(a: &str, b: &str) -> (r: bool)
    ensures
        r == (a@ == b@),
{
    let x = a.as_bytes();
    let y = b.as_bytes();
    proof {
        encode_utf8_decode_utf8(a@);
        encode_utf8_decode_utf8(b@);
    }
    let n: usize = x.len();
    if n != y.len() {
        return false;
    }
    let mut i: usize = 0;
    while i < n
        invariant
            i <= n,
            n == x@.len(),
            n == y@.len(),
            x@ == encode_utf8(a@),
            y@ == encode_utf8(b@),
            forall|j: int| 0 <= j < i ==> x@[j] == y@[j],
        decreases n - i,
    {
        if x[i] != y[i] {
            return false;
        }
        i += 1;
    }
    proof {
        assert(x@ =~= y@);
    }
    true
}

/// The character that stands for the digit `d` in base ten.
pub open spec fn digit_char(d: nat) -> char
    recommends
        d < 10,
{
    ((48 + d) as u8) as char
}

/// `n` written in base ten, without sign and without leading zeros.
pub open spec fn decimal(n: nat) -> Seq<char>
    decreases n,
{
    if n < 10 {
        seq![digit_char(n)]
    } else {
        decimal(n / 10).push(digit_char(n % 10))
    }
}

/// `v` written in base ten, with a `-` in front where it is negative.
pub open spec fn signed_decimal(v: int) -> Seq<char> {
    if v < 0 {
        seq!['-'] + decimal((-v) as nat)
    } else {
        decimal(v as nat)
    }
}

/// Appends `n`, written in base ten, to `out`.
pub fn append_decimal(out: &mut String, n: u64)
    ensures
        final(out)@ == old(out)@ + decimal(n as nat),
{
    let mut digits: Vec<char> = Vec::new();
    let mut m: u64 = n;
    digits.push((48u8 + (m % 10) as u8) as char);
    m = m / 10;
    while m > 0
        invariant
            digits@.len() > 0,
            decimal(n as nat) == (if m > 0 {
                decimal(m as nat)
            } else {
                Seq::empty()
            }) + digits@.reverse(),
        decreases m,
    {
        let ghost before = digits@;
        digits.push((48u8 + (m % 10) as u8) as char);
        proof {
            assert(digits@.reverse() =~= seq![digit_char((m % 10) as nat)] + before.reverse());
        }
        m = m / 10;
    }
    let mut i: usize = digits.len();
    while i > 0
        invariant
            i <= digits@.len(),
            out@ == old(out)@ + digits@.reverse().subrange(0, digits@.len() - i),
        decreases i,
    {
        i -= 1;
        push_char(out, digits[i]);
        proof {
            let r = digits@.reverse();
            let k = digits@.len() - i;
            assert(r.subrange(0, k) =~= r.subrange(0, k - 1).push(digits@[i as int]));
        }
    }
    proof {
        let r = digits@.reverse();
        assert(r.subrange(0, r.len() as int) =~= r);
    }
}

/// Appends `v`, written in base ten, to `out`.
pub fn append_signed(out: &mut String, v: i128)
    requires
        -0x8000_0000_0000_0000 <= v <= 0xFFFF_FFFF_FFFF_FFFF,
    ensures
        final(out)@ == old(out)@ + signed_decimal(v as int),
{
    if v < 0 {
        push_char(out, '-');
        append_decimal(out, (-v) as u64);
        proof {
            assert(out@ =~= old(out)@ + signed_decimal(v as int));
        }
    } else {
        append_decimal(out, v as u64);
    }
}

} // verus!
