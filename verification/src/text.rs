//! Character and byte-level text helpers shared by the rest of the library.

use vstd::prelude::*;
use vstd::string::StringExecFns;
use vstd::string::StrSliceExecFns;

verus! {

/// Strict lexicographic order on byte strings, the order that `str`'s
/// comparison operators use.
pub open spec fn bytes_lt(a: Seq<u8>, b: Seq<u8>) -> bool {
    exists|i: int|
        #![trigger a.take(i), b.take(i)]
        0 <= i <= a.len() && i <= b.len() && a.take(i) =~= b.take(i) && {
            ||| (i == a.len() && i < b.len())
            ||| (i < a.len() && i < b.len() && a[i] < b[i])
        }
}

/// Compares two byte strings lexicographically; returns `true` when `a` comes
/// strictly before `b`.
pub fn bytes_less(a: &[u8], b: &[u8]) -> (res: bool)
    ensures
        res == bytes_lt(a@, b@),
{
    let mut i: usize = 0;
    while i < a.len() && i < b.len()
        invariant
            i <= a.len(),
            i <= b.len(),
            a@.take(i as int) =~= b@.take(i as int),
        decreases a.len() - i,
    {
        if a[i] != b[i] {
            let r = a[i] < b[i];
            proof {
                if r {
                    assert(bytes_lt(a@, b@));
                } else {
                    assert forall|k: int|
                        0 <= k <= a@.len() && k <= b@.len() && a@.take(k) =~= b@.take(k)
                        implies !((k == a@.len() && k < b@.len()) || (k < a@.len() && k < b@.len() && a@[k] < b@[k])) by {
                        if k > i {
                            assert(a@.take(k)[i as int] == b@.take(k)[i as int]);
                        } else if k < i {
                            assert(a@.take(i as int)[k] == b@.take(i as int)[k]);
                        }
                    }
                }
            }
            return r;
        }
        assert(a@.take(i + 1) =~= a@.take(i as int).push(a@[i as int]));
        assert(b@.take(i + 1) =~= b@.take(i as int).push(b@[i as int]));
        i = i + 1;
    }
    let r = i == a.len() && i < b.len();
    proof {
        if r {
            assert(bytes_lt(a@, b@));
        } else {
            assert forall|k: int|
                0 <= k <= a@.len() && k <= b@.len() && a@.take(k) =~= b@.take(k)
                implies !((k == a@.len() && k < b@.len()) || (k < a@.len() && k < b@.len() && a@[k] < b@[k])) by {
                if k < i {
                    assert(a@.take(i as int)[k] == b@.take(i as int)[k]);
                }
            }
        }
    }
    r
}


/// Whether two byte strings are equal.
pub fn bytes_equal(a: &[u8], b: &[u8]) -> (res: bool)
    ensures
        res == (a@ == b@),
{
    let less = bytes_less(a, b);
    let more = bytes_less(b, a);
    proof {
        if a@ != b@ {
            lemma_bytes_lt_total(a@, b@);
        } else {
            lemma_bytes_lt_irreflexive(a@);
        }
    }
    !less && !more
}

/// Whether two texts are equal.
pub fn same_text(a: &str, b: &str) -> (res: bool)
    ensures
        res == (a@ == b@),
{
    let r = bytes_equal(a.as_bytes(), b.as_bytes());
    proof {
        vstd::utf8::encode_utf8_decode_utf8(a@);
        vstd::utf8::encode_utf8_decode_utf8(b@);
    }
    r
}

/// `t` begins with `p`.
pub open spec fn has_prefix(t: Seq<char>, p: Seq<char>) -> bool {
    p.len() <= t.len() && t.take(p.len() as int) == p
}

/// Whether `t` begins with `p`, as `str::starts_with`.
pub fn starts_with_text(t: &str, p: &str) -> (res: bool)
    ensures
        res == has_prefix(t@, p@),
{
    let n = t.unicode_len();
    let m = p.unicode_len();
    if m > n {
        return false;
    }
    let head = t.substring_char(0, m);
    assert(head@ =~= t@.take(m as int));
    same_text(head, p)
}

/// No byte string comes strictly before itself.
pub proof fn lemma_bytes_lt_irreflexive(a: Seq<u8>)
    ensures
        !bytes_lt(a, a),
{
}

/// The byte order is transitive.
pub proof fn lemma_bytes_lt_transitive(a: Seq<u8>, b: Seq<u8>, c: Seq<u8>)
    requires
        bytes_lt(a, b),
        bytes_lt(b, c),
    ensures
        bytes_lt(a, c),
{
    let i = choose|i: int|
        #![trigger a.take(i), b.take(i)]
        0 <= i <= a.len() && i <= b.len() && a.take(i) =~= b.take(i) && {
            ||| (i == a.len() && i < b.len())
            ||| (i < a.len() && i < b.len() && a[i] < b[i])
        };
    let k = choose|k: int|
        #![trigger b.take(k), c.take(k)]
        0 <= k <= b.len() && k <= c.len() && b.take(k) =~= c.take(k) && {
            ||| (k == b.len() && k < c.len())
            ||| (k < b.len() && k < c.len() && b[k] < c[k])
        };
    let m = if i < k { i } else { k };
    assert forall|j: int| 0 <= j < m implies a[j] == c[j] by {
        assert(a.take(i)[j] == b.take(i)[j]);
        assert(b.take(k)[j] == c.take(k)[j]);
    }
    assert(a.take(m) =~= c.take(m));
    if i < k {
        assert(b.take(k)[i] == c.take(k)[i]);
    } else if k < i {
        assert(a.take(i)[k] == b.take(i)[k]);
    }
}

/// Two different byte strings are ordered one way or the other.
pub proof fn lemma_bytes_lt_total(a: Seq<u8>, b: Seq<u8>)
    requires
        a != b,
    ensures
        bytes_lt(a, b) || bytes_lt(b, a),
{
    let n = if a.len() < b.len() { a.len() } else { b.len() };
    if forall|j: int| 0 <= j < n ==> a[j] == b[j] {
        assert(a.take(n as int) =~= b.take(n as int));
        if a.len() == b.len() {
            assert(a =~= b);
        }
        if a.len() < b.len() {
            assert(bytes_lt(a, b));
        } else {
            assert(bytes_lt(b, a));
        }
    } else {
        let d = choose|d: int| 0 <= d < n && a[d] != b[d];
        let f = lemma_first_difference(a, b, d);
        assert(a.take(f) =~= b.take(f));
        if a[f] < b[f] {
            assert(bytes_lt(a, b));
        } else {
            assert(b.take(f) =~= a.take(f));
            assert(bytes_lt(b, a));
        }
    }
}

proof fn lemma_first_difference(a: Seq<u8>, b: Seq<u8>, d: int) -> (f: int)
    requires
        0 <= d < a.len(),
        d < b.len(),
        a[d] != b[d],
    ensures
        0 <= f <= d,
        a[f] != b[f],
        forall|j: int| 0 <= j < f ==> a[j] == b[j],
    decreases d,
{
    if forall|j: int| 0 <= j < d ==> a[j] == b[j] {
        d
    } else {
        let e = choose|e: int| 0 <= e < d && a[e] != b[e];
        lemma_first_difference(a, b, e)
    }
}

/// The byte order is asymmetric.
pub proof fn lemma_bytes_lt_asymmetric(a: Seq<u8>, b: Seq<u8>)
    requires
        bytes_lt(a, b),
    ensures
        !bytes_lt(b, a),
{
    if bytes_lt(b, a) {
        lemma_bytes_lt_transitive(a, b, a);
    }
}


/// The characters with Unicode's `White_Space` property, which
/// `char::is_whitespace` tests for.
pub open spec fn is_white_space(c: char) -> bool {
    let u = c as u32;
    ||| 0x09 <= u <= 0x0d
    ||| u == 0x20
    ||| u == 0x85
    ||| u == 0xa0
    ||| u == 0x1680
    ||| 0x2000 <= u <= 0x200a
    ||| u == 0x2028
    ||| u == 0x2029
    ||| u == 0x202f
    ||| u == 0x205f
    ||| u == 0x3000
}

/// The characters of general category `Cc`, which `char::is_control` tests for.
pub open spec fn is_control(c: char) -> bool {
    let u = c as u32;
    u <= 0x1f || (0x7f <= u <= 0x9f)
}

/// The text holds a control character.
pub open spec fn has_control(s: Seq<char>) -> bool {
    exists|i: int| 0 <= i < s.len() && is_control(#[trigger] s[i])
}

/// Whether the text holds a control character.
pub fn contains_control(s: &str) -> (res: bool)
    ensures
        res == has_control(s@),
{
    let cs = chars_of(s);
    let mut i: usize = 0;
    while i < cs.len()
        invariant
            cs@ == s@,
            i <= cs.len(),
            forall|k: int| 0 <= k < i ==> !is_control(#[trigger] s@[k]),
        decreases cs.len() - i,
    {
        if is_control_char(cs[i]) {
            assert(is_control(s@[i as int]));
            return true;
        }
        i = i + 1;
    }
    false
}

/// Whether `c` is white space in Unicode's sense.
pub fn is_white_space_char(c: char) -> (res: bool)
    ensures
        res == is_white_space(c),
{
    let u = c as u32;
    (0x09 <= u && u <= 0x0d) || u == 0x20 || u == 0x85 || u == 0xa0 || u == 0x1680
        || (0x2000 <= u && u <= 0x200a) || u == 0x2028 || u == 0x2029 || u == 0x202f
        || u == 0x205f || u == 0x3000
}

/// Whether `c` is a control character (category `Cc`).
pub fn is_control_char(c: char) -> (res: bool)
    ensures
        res == is_control(c),
{
    let u = c as u32;
    u <= 0x1f || (0x7f <= u && u <= 0x9f)
}

/// What `str::trim_start` leaves: the text without its leading white space.
pub open spec fn trim_start_spec(s: Seq<char>) -> Seq<char>
    decreases s.len(),
{
    if s.len() > 0 && is_white_space(s[0]) {
        trim_start_spec(s.drop_first())
    } else {
        s
    }
}

/// The text without the trailing characters that satisfy `p`.
pub open spec fn trim_end_by(s: Seq<char>, p: spec_fn(char) -> bool) -> Seq<char>
    decreases s.len(),
{
    if s.len() > 0 && p(s.last()) {
        trim_end_by(s.drop_last(), p)
    } else {
        s
    }
}

/// What `str::trim` leaves: the text without leading and trailing white space.
pub open spec fn trim_spec(s: Seq<char>) -> Seq<char> {
    trim_end_by(trim_start_spec(s), |c: char| is_white_space(c))
}

/// The characters of a text, in order.
pub fn chars_of(s: &str) -> (res: Vec<char>)
    ensures
        res@ == s@,
{
    let n = s.unicode_len();
    let mut out: Vec<char> = Vec::new();
    let mut i: usize = 0;
    while i < n
        invariant
            n == s@.len(),
            i <= n,
            out@ == s@.take(i as int),
        decreases n - i,
    {
        let c = s.get_char(i);
        out.push(c);
        assert(s@.take(i + 1) =~= s@.take(i as int).push(c));
        i = i + 1;
    }
    assert(s@.take(n as int) =~= s@);
    out
}

proof fn lemma_trim_start_skip(s: Seq<char>, i: int)
    requires
        0 <= i <= s.len(),
        forall|j: int| 0 <= j < i ==> is_white_space(#[trigger] s[j]),
    ensures
        trim_start_spec(s) == trim_start_spec(s.skip(i)),
    decreases i,
{
    if i > 0 {
        assert(s.skip(1) =~= s.drop_first());
        lemma_trim_start_skip(s.drop_first(), i - 1);
        assert(s.drop_first().skip(i - 1) =~= s.skip(i));
    } else {
        assert(s.skip(0) =~= s);
    }
}

proof fn lemma_trim_end_take(s: Seq<char>, p: spec_fn(char) -> bool, j: int)
    requires
        0 <= j <= s.len(),
        forall|k: int| j <= k < s.len() ==> p(#[trigger] s[k]),
    ensures
        trim_end_by(s, p) == trim_end_by(s.take(j), p),
    decreases s.len() - j,
{
    if j < s.len() {
        lemma_trim_end_take(s.drop_last(), p, j);
        assert(s.drop_last().take(j) =~= s.take(j));
    } else {
        assert(s.take(j) =~= s);
    }
}

/// The text without its leading and trailing white space, as `str::trim`.
pub fn trim(s: &str) -> (res: &str)
    ensures
        res@ == trim_spec(s@),
{
    let cs = chars_of(s);
    let n = cs.len();
    let mut start: usize = 0;
    while start < n && is_white_space_char(cs[start])
        invariant
            n == s@.len(),
            cs@ == s@,
            start <= n,
            forall|j: int| 0 <= j < start ==> is_white_space(#[trigger] s@[j]),
        decreases n - start,
    {
        start = start + 1;
    }
    proof {
        lemma_trim_start_skip(s@, start as int);
        if start < n {
            assert(s@.skip(start as int)[0] == s@[start as int]);
        } else {
            assert(s@.skip(start as int).len() == 0);
        }
    }
    let ghost rest = s@.skip(start as int);
    assert(trim_start_spec(s@) == rest);
    let mut end: usize = n;
    while end > start && is_white_space_char(cs[end - 1])
        invariant
            n == s@.len(),
            cs@ == s@,
            start <= end <= n,
            rest == s@.skip(start as int),
            forall|k: int| start <= k < end ==> rest[k - start] == s@[k],
            forall|k: int| end <= k < n ==> is_white_space(#[trigger] s@[k]),
        decreases end - start,
    {
        end = end - 1;
    }
    proof {
        let p = |c: char| is_white_space(c);
        assert forall|k: int| end - start <= k < rest.len() implies p(#[trigger] rest[k]) by {
            assert(rest[k] == s@[k + start]);
        }
        lemma_trim_end_take(rest, p, end - start);
        let t = rest.take(end - start);
        if end > start {
            assert(t.last() == s@[end - 1]);
        }
        assert(t =~= s@.subrange(start as int, end as int));
    }
    s.substring_char(start, end)
}

/// The text without any trailing copies of `c`, as `str::trim_end_matches`
/// with a character pattern.
pub fn trim_end_matching(s: &str, c: char) -> (res: &str)
    ensures
        res@ == trim_end_by(s@, |x: char| x == c),
{
    let cs = chars_of(s);
    let n = cs.len();
    let mut end: usize = n;
    while end > 0 && cs[end - 1] == c
        invariant
            n == s@.len(),
            cs@ == s@,
            end <= n,
            forall|k: int| end <= k < n ==> #[trigger] s@[k] == c,
        decreases end,
    {
        end = end - 1;
    }
    proof {
        let p = |x: char| x == c;
        lemma_trim_end_take(s@, p, end as int);
        let t = s@.take(end as int);
        if end > 0 {
            assert(t.last() == s@[end - 1]);
        }
        assert(t =~= s@.subrange(0, end as int));
    }
    s.substring_char(0, end)
}

/// Name for what `str::to_lowercase` returns for a text.
pub uninterp spec fn lowercase(s: Seq<char>) -> Seq<char>;

/// `str::to_lowercase`. Claims that the result is the named one, and that it
/// is empty exactly when the text is: std documents that each character
/// lowercases to one or more characters (`char::to_lowercase`).
#[verifier::external_body]
pub fn to_lowercase(s: &str) -> (res: String)
    ensures
        res@ == lowercase(s@),
        res@.len() == 0 <==> s@.len() == 0,
{
    s.to_lowercase()
}

/// `String::push`: appends one character.
#[verifier::external_body]
pub fn push_char(s: &mut String, c: char)
    ensures
        final(s)@ == old(s)@.push(c),
{
    s.push(c)
}

/// The ASCII digit for a value below ten.
pub open spec fn digit_char(d: nat) -> char {
    (48 + d) as char
}

/// The decimal digits of a natural number, without leading zeros.
pub open spec fn decimal(n: nat) -> Seq<char>
    decreases n,
{
    if n < 10 {
        seq![digit_char(n)]
    } else {
        decimal(n / 10).push(digit_char(n % 10))
    }
}

/// Appends the decimal digits of `n`.
pub fn push_decimal(s: &mut String, n: u64)
    ensures
        final(s)@ == old(s)@ + decimal(n as nat),
    decreases n,
{
    if n >= 10 {
        push_decimal(s, n / 10);
    }
    let d = (n % 10) as u8;
    let c = (48u8 + d) as char;
    push_char(s, c);
    assert(s@ =~= old(s)@ + decimal(n as nat));
}

/// Appends a text.
pub fn push_str(s: &mut String, t: &str)
    ensures
        final(s)@ == old(s)@ + t@,
{
    s.append(t);
}

/// A new `String` holding the text.
pub fn owned(t: &str) -> (res: String)
    ensures
        res@ == t@,
{
    String::from_str(t)
}

} // verus!
