//! Text primitives the parser is built on: characters, their UTF-8 width,
//! blanks, trimming, and building strings.
//!
//! Sources are read as `&str`, whose view is a sequence of characters, while
//! every span of the language counts **bytes**. [`blen`] is the bridge: the
//! number of bytes the UTF-8 encoding of some characters takes.

use vstd::prelude::*;
use vstd::utf8::*;

verus! {

broadcast use vstd::seq_lib::group_seq_properties;

/// Number of bytes of the UTF-8 encoding of `cs`.
pub open spec fn blen(cs: Seq<char>) -> nat {
    encode_utf8(cs).len()
}

/// Number of bytes of the UTF-8 encoding of one character.
pub open spec fn cwidth(c: char) -> nat {
    if (c as u32) < 0x80 {
        1
    } else if (c as u32) < 0x800 {
        2
    } else if (c as u32) < 0x10000 {
        3
    } else {
        4
    }
}

/// The encoding of one character is as wide as [`cwidth`] says.
pub proof fn lemma_encode_scalar_len(c: char)
    ensures
        encode_scalar(c as u32).len() == cwidth(c),
{
    char_is_scalar(c);
}

/// Encoding distributes over concatenation.
pub proof fn lemma_encode_utf8_add(a: Seq<char>, b: Seq<char>)
    ensures
        encode_utf8(a + b) == encode_utf8(a) + encode_utf8(b),
    decreases a.len(),
{
    if a.len() == 0 {
        assert(a + b =~= b);
    } else {
        assert((a + b).drop_first() =~= a.drop_first() + b);
        lemma_encode_utf8_add(a.drop_first(), b);
        assert(encode_utf8(a + b) =~= encode_scalar(a[0] as u32) + encode_utf8(a.drop_first() + b));
        assert(encode_utf8(a) =~= encode_scalar(a[0] as u32) + encode_utf8(a.drop_first()));
    }
}

/// Byte length of a concatenation.
pub proof fn lemma_blen_add(a: Seq<char>, b: Seq<char>)
    ensures
        blen(a + b) == blen(a) + blen(b),
{
    lemma_encode_utf8_add(a, b);
}

/// Byte length of a sequence followed by one more character.
pub proof fn lemma_blen_push(a: Seq<char>, c: char)
    ensures
        blen(a.push(c)) == blen(a) + cwidth(c),
{
    lemma_encode_utf8_add(a, seq![c]);
    assert(a + seq![c] =~= a.push(c));
    lemma_encode_scalar_len(c);
    assert(seq![c].drop_first() =~= Seq::<char>::empty());
    assert(encode_utf8(seq![c]) =~= encode_scalar(c as u32) + encode_utf8(Seq::<char>::empty()));
}

/// The byte length of a prefix never exceeds that of the whole.
pub proof fn lemma_blen_prefix(a: Seq<char>, i: int)
    requires
        0 <= i <= a.len(),
    ensures
        blen(a.take(i)) <= blen(a),
        blen(a) == blen(a.take(i)) + blen(a.skip(i)),
{
    assert(a =~= a.take(i) + a.skip(i));
    lemma_blen_add(a.take(i), a.skip(i));
}

/// Byte length of a sub-range, seen from the prefixes around it.
pub proof fn lemma_blen_subrange(a: Seq<char>, i: int, j: int)
    requires
        0 <= i <= j <= a.len(),
    ensures
        blen(a.take(j)) == blen(a.take(i)) + blen(a.subrange(i, j)),
        blen(a.take(j)) <= blen(a),
{
    assert(a.take(j) =~= a.take(i) + a.subrange(i, j));
    lemma_blen_add(a.take(i), a.subrange(i, j));
    lemma_blen_prefix(a, j);
}

/// Each character takes at least one byte.
pub proof fn lemma_blen_ge_len(a: Seq<char>)
    ensures
        blen(a) >= a.len(),
    decreases a.len(),
{
    if a.len() > 0 {
        lemma_blen_push(a.drop_last(), a.last());
        assert(a.drop_last().push(a.last()) =~= a);
        lemma_blen_ge_len(a.drop_last());
    }
}

/// ASCII text takes one byte per character.
pub proof fn lemma_blen_ascii(a: Seq<char>)
    requires
        forall|i: int| 0 <= i < a.len() ==> (a[i] as u32) < 0x80,
    ensures
        blen(a) == a.len(),
    decreases a.len(),
{
    if a.len() > 0 {
        lemma_blen_push(a.drop_last(), a.last());
        assert(a.drop_last().push(a.last()) =~= a);
        lemma_blen_ascii(a.drop_last());
    }
}

/// The empty text takes no byte.
pub proof fn lemma_blen_empty()
    ensures
        blen(Seq::<char>::empty()) == 0,
{
}

/// Byte length of `s`, a `&str`, as its view counts it.
pub proof fn lemma_str_len(s: &str)
    requires
        blen(s@) <= usize::MAX,
    ensures
        s.len() == blen(s@),
{
}

/// Number of bytes of the UTF-8 encoding of `c`.
pub fn char_width(c: char) -> (r: usize)
    ensures
        r == cwidth(c),
        1 <= r <= 4,
{
    let u = c as u32;
    if u < 0x80 {
        1
    } else if u < 0x800 {
        2
    } else if u < 0x10000 {
        3
    } else {
        4
    }
}

/// Byte length of `cs[from..to]`, counted from `base`.
pub fn bytes_between(cs: &Vec<char>, from: usize, to: usize) -> (r: usize)
    requires
        from <= to <= cs@.len(),
        blen(cs@) <= usize::MAX,
    ensures
        r == blen(cs@.subrange(from as int, to as int)),
{
    let mut i = from;
    let mut n: usize = 0;
    proof {
        assert(cs@.subrange(from as int, from as int) =~= Seq::<char>::empty());
    }
    while i < to
        invariant
            from <= i <= to <= cs@.len(),
            blen(cs@) <= usize::MAX,
            n == blen(cs@.subrange(from as int, i as int)),
        decreases to - i,
    {
        proof {
            lemma_blen_push(cs@.subrange(from as int, i as int), cs@[i as int]);
            assert(cs@.subrange(from as int, i as int).push(cs@[i as int]) =~= cs@.subrange(
                from as int,
                i + 1,
            ));
            lemma_blen_subrange(cs@, from as int, i + 1);
            lemma_blen_subrange(cs@, 0, from as int);
            assert(cs@.take(0) =~= Seq::<char>::empty());
        }
        n = n + char_width(cs[i]);
        i = i + 1;
    }
    n
}

/// Characters of `s`, in order.
pub fn to_chars(s: &str) -> (r: Vec<char>)
    ensures
        r@ == s@,
{
    broadcast use vstd::string::group_string_axioms;

    let mut out: Vec<char> = Vec::new();
    let mut it = s.chars();
    loop
        invariant
            vstd::std_specs::iter::IteratorSpec::obeys_prophetic_iter_laws(&it),
            out@ + vstd::std_specs::iter::IteratorSpec::remaining(&it) == s@,
        decreases s@.len() - out@.len(),
    {
        let ghost before = vstd::std_specs::iter::IteratorSpec::remaining(&it);
        match it.next() {
            Some(c) => {
                proof {
                    assert(out@.push(c) + vstd::std_specs::iter::IteratorSpec::remaining(&it) =~= out@ + before);
                }
                out.push(c);
            },
            None => {
                proof {
                    assert(out@ + vstd::std_specs::iter::IteratorSpec::remaining(&it) =~= out@);
                }
                return out;
            },
        }
    }
}


/// Whether `c` has the Unicode `White_Space` property, which is what
/// `char::is_whitespace` and `str::trim` go by.
pub open spec fn is_ws(c: char) -> bool {
    let u = c as u32;
    ||| 0x09 <= u <= 0x0D
    ||| u == 0x20
    ||| u == 0x85
    ||| u == 0xA0
    ||| u == 0x1680
    ||| 0x2000 <= u <= 0x200A
    ||| u == 0x2028
    ||| u == 0x2029
    ||| u == 0x202F
    ||| u == 0x205F
    ||| u == 0x3000
}

/// Executable [`is_ws`].
pub fn is_whitespace(c: char) -> (r: bool)
    ensures
        r == is_ws(c),
{
    let u = c as u32;
    (0x09 <= u && u <= 0x0D) || u == 0x20 || u == 0x85 || u == 0xA0 || u == 0x1680 || (0x2000
        <= u && u <= 0x200A) || u == 0x2028 || u == 0x2029 || u == 0x202F || u == 0x205F || u
        == 0x3000
}

/// Whether `c` is alphabetic or numeric in Unicode, which is what
/// `char::is_alphanumeric` answers.
pub uninterp spec fn unicode_alphanumeric(c: char) -> bool;

/// Whether `c` is alphabetic or numeric in Unicode.
///
/// Trusted: calls `char::is_alphanumeric`, whose answer depends on `c` alone
/// and comes from the Unicode tables of std; the contract names that answer
/// [`unicode_alphanumeric`] and says nothing more of it.
#[verifier::external_body]
pub(crate) fn is_alphanumeric(c: char) -> (r: bool)
    ensures
        r == unicode_alphanumeric(c),
{
    c.is_alphanumeric()
}

/// Whether `c` is an ASCII letter.
pub open spec fn is_alpha(c: char) -> bool {
    ('a' <= c && c <= 'z') || ('A' <= c && c <= 'Z')
}

/// Whether `c` is an ASCII digit.
pub open spec fn is_digit(c: char) -> bool {
    '0' <= c && c <= '9'
}

/// Whether `c` may continue an identifier: `[A-Za-z0-9_]`.
pub open spec fn is_ident_char(c: char) -> bool {
    is_alpha(c) || is_digit(c) || c == '_'
}

/// Whether `c` may start an identifier: `[A-Za-z_]`.
pub open spec fn is_ident_start(c: char) -> bool {
    is_alpha(c) || c == '_'
}

/// Executable [`is_ident_char`].
pub fn ident_char(c: char) -> (r: bool)
    ensures
        r == is_ident_char(c),
{
    ('a' <= c && c <= 'z') || ('A' <= c && c <= 'Z') || ('0' <= c && c <= '9') || c == '_'
}

/// Executable [`is_ident_start`].
pub fn ident_start(c: char) -> (r: bool)
    ensures
        r == is_ident_start(c),
{
    ('a' <= c && c <= 'z') || ('A' <= c && c <= 'Z') || c == '_'
}

/// Executable [`is_digit`].
pub fn digit(c: char) -> (r: bool)
    ensures
        r == is_digit(c),
{
    '0' <= c && c <= '9'
}

/// Number of blanks `s` starts with.
pub open spec fn lead(s: Seq<char>) -> nat
    decreases s.len(),
{
    if s.len() > 0 && is_ws(s[0]) {
        1 + lead(s.drop_first())
    } else {
        0
    }
}

/// Number of blanks `s` ends with.
pub open spec fn trail(s: Seq<char>) -> nat
    decreases s.len(),
{
    if s.len() > 0 && is_ws(s.last()) {
        1 + trail(s.drop_last())
    } else {
        0
    }
}

/// `s` without its leading blanks, as `str::trim_start` gives it.
pub open spec fn trim_start(s: Seq<char>) -> Seq<char> {
    s.skip(lead(s) as int)
}

/// `s` without its trailing blanks, as `str::trim_end` gives it.
pub open spec fn trim_end(s: Seq<char>) -> Seq<char> {
    s.take(s.len() - trail(s))
}

/// `s` without the blanks around it, as `str::trim` gives it.
pub open spec fn trim(s: Seq<char>) -> Seq<char> {
    trim_end(trim_start(s))
}

/// [`lead`] is the first character that is not a blank.
pub proof fn lemma_lead(s: Seq<char>, k: int)
    requires
        0 <= k <= s.len(),
        forall|i: int| 0 <= i < k ==> is_ws(#[trigger] s[i]),
        k == s.len() || !is_ws(s[k]),
    ensures
        lead(s) == k,
    decreases k,
{
    if k > 0 {
        assert forall|i: int| 0 <= i < k - 1 implies is_ws(#[trigger] s.drop_first()[i]) by {
            assert(s.drop_first()[i] == s[i + 1]);
        }
        if k < s.len() {
            assert(s.drop_first()[k - 1] == s[k]);
        }
        lemma_lead(s.drop_first(), k - 1);
    }
}

/// [`lead`] counts blanks, and stops on the first character that is not one.
pub proof fn lemma_lead_shape(s: Seq<char>)
    ensures
        lead(s) <= s.len(),
        forall|i: int| 0 <= i < lead(s) ==> is_ws(#[trigger] s[i]),
        lead(s) == s.len() || !is_ws(s[lead(s) as int]),
    decreases s.len(),
{
    if s.len() > 0 && is_ws(s[0]) {
        lemma_lead_shape(s.drop_first());
        assert forall|i: int| 0 <= i < lead(s) implies is_ws(#[trigger] s[i]) by {
            if i > 0 {
                assert(s[i] == s.drop_first()[i - 1]);
            }
        }
        if lead(s) < s.len() {
            assert(s[lead(s) as int] == s.drop_first()[lead(s) - 1]);
        }
    }
}

/// [`trail`] is the last character that is not a blank.
pub proof fn lemma_trail(s: Seq<char>, k: int)
    requires
        0 <= k <= s.len(),
        forall|i: int| s.len() - k <= i < s.len() ==> is_ws(#[trigger] s[i]),
        k == s.len() || !is_ws(s[s.len() - k - 1]),
    ensures
        trail(s) == k,
    decreases k,
{
    if k > 0 {
        assert forall|i: int|
            s.drop_last().len() - (k - 1) <= i < s.drop_last().len() implies is_ws(
            #[trigger] s.drop_last()[i],
        ) by {
            assert(s.drop_last()[i] == s[i]);
        }
        if k < s.len() {
            assert(s.drop_last()[s.drop_last().len() - (k - 1) - 1] == s[s.len() - k - 1]);
        }
        lemma_trail(s.drop_last(), k - 1);
    }
}

/// [`trail`] counts blanks from the end, and stops on the last character that
/// is not one.
pub proof fn lemma_trail_shape(s: Seq<char>)
    ensures
        trail(s) <= s.len(),
        forall|i: int| s.len() - trail(s) <= i < s.len() ==> is_ws(#[trigger] s[i]),
        trail(s) == s.len() || !is_ws(s[s.len() - trail(s) - 1]),
    decreases s.len(),
{
    if s.len() > 0 && is_ws(s.last()) {
        lemma_trail_shape(s.drop_last());
        assert forall|i: int| s.len() - trail(s) <= i < s.len() implies is_ws(#[trigger] s[i]) by {
            if i < s.len() - 1 {
                assert(s[i] == s.drop_last()[i]);
            }
        }
        if trail(s) < s.len() {
            assert(s[s.len() - trail(s) - 1] == s.drop_last()[s.drop_last().len() - trail(
                s.drop_last(),
            ) - 1]);
        }
    }
}

/// Blanks `cs[from..to]` starts with.
pub fn lead_count(cs: &Vec<char>, from: usize, to: usize) -> (r: usize)
    requires
        from <= to <= cs@.len(),
    ensures
        r == lead(cs@.subrange(from as int, to as int)),
        r <= to - from,
{
    let ghost sub = cs@.subrange(from as int, to as int);
    let mut k = from;
    while k < to && is_whitespace(cs[k])
        invariant
            from <= k <= to <= cs@.len(),
            sub == cs@.subrange(from as int, to as int),
            forall|i: int| 0 <= i < k - from ==> is_ws(#[trigger] sub[i]),
        decreases to - k,
    {
        k = k + 1;
    }
    proof {
        lemma_lead(sub, k - from);
    }
    k - from
}

/// Blanks `cs[from..to]` ends with.
pub fn trail_count(cs: &Vec<char>, from: usize, to: usize) -> (r: usize)
    requires
        from <= to <= cs@.len(),
    ensures
        r == trail(cs@.subrange(from as int, to as int)),
        r <= to - from,
{
    let ghost sub = cs@.subrange(from as int, to as int);
    let mut k = to;
    while k > from && is_whitespace(cs[k - 1])
        invariant
            from <= k <= to <= cs@.len(),
            sub == cs@.subrange(from as int, to as int),
            forall|i: int| k - from <= i < to - from ==> is_ws(#[trigger] sub[i]),
        decreases k - from,
    {
        k = k - 1;
    }
    proof {
        lemma_trail(sub, to - k);
    }
    to - k
}

/// A sub-range never takes more bytes than the whole.
pub proof fn lemma_blen_sub_le(a: Seq<char>, i: int, j: int)
    requires
        0 <= i <= j <= a.len(),
    ensures
        blen(a.subrange(i, j)) <= blen(a),
{
    lemma_blen_subrange(a, i, j);
}

/// The trimmed text is the run of `s` between its leading and its trailing
/// blanks.
pub proof fn lemma_trim_range(s: Seq<char>)
    ensures
        lead(s) <= s.len(),
        trail(trim_start(s)) <= s.len() - lead(s),
        trim(s) == s.subrange(lead(s) as int, s.len() - trail(trim_start(s))),
{
    lemma_lead_shape(s);
    let t = trim_start(s);
    lemma_trail_shape(t);
    assert(trim(s) =~= s.subrange(lead(s) as int, s.len() - trail(t)));
}

/// Trimming twice is trimming once.
pub proof fn lemma_trim_idempotent(s: Seq<char>)
    ensures
        trim(trim(s)) == trim(s),
{
    lemma_trim_range(s);
    lemma_lead_shape(s);
    let t = trim_start(s);
    lemma_trail_shape(t);
    let r = trim(s);
    if r.len() == 0 {
        lemma_lead(r, 0);
        assert(trim_start(r) =~= r);
        lemma_trail(trim_start(r), 0);
        assert(trim(r) =~= r);
    } else {
        assert(r[0] == s[lead(s) as int]);
        lemma_lead(r, 0);
        assert(trim_start(r) =~= r);
        assert(r[r.len() - 1] == t[t.len() - trail(t) - 1]);
        lemma_trail(r, 0);
        assert(trim(r) =~= r);
    }
}

/// Trimming never adds bytes.
pub proof fn lemma_blen_trim(s: Seq<char>)
    ensures
        blen(trim(s)) <= blen(s),
        blen(trim_start(s)) <= blen(s),
{
    lemma_lead_shape(s);
    let t = trim_start(s);
    lemma_trail_shape(t);
    assert(t =~= s.subrange(lead(s) as int, s.len() as int));
    lemma_blen_sub_le(s, lead(s) as int, s.len() as int);
    assert(trim(s) =~= s.subrange(lead(s) as int, lead(s) + t.len() - trail(t)));
    lemma_blen_sub_le(s, lead(s) as int, lead(s) + t.len() - trail(t));
}

/// `s` without its trailing blanks, as a slice of `s`.
pub fn trim_end_str(s: &str) -> (r: &str)
    ensures
        r@ == trim_end(s@),
{
    let cs = to_chars(s);
    let n = cs.len();
    let t = trail_count(&cs, 0, n);
    proof {
        assert(cs@.subrange(0, n as int) =~= s@);
    }
    slice(s, 0, n - t)
}

/// `s[from..to]` in characters, as a slice of `s`.
pub fn slice<'a>(s: &'a str, from: usize, to: usize) -> (r: &'a str)
    requires
        from <= to <= s@.len(),
    ensures
        r@ == s@.subrange(from as int, to as int),
{
    s.substring_char(from, to)
}

/// A new `String` holding `s`.
pub fn owned(s: &str) -> (r: String)
    ensures
        r@ == s@,
{
    s.to_owned()
}

/// Appends `c` at the end of `s`.
///
/// Trusted: calls `String::push`, which std documents as appending the given
/// `char` to the end of the `String`; the contract says exactly that.
#[verifier::external_body]
pub fn push_char(s: &mut String, c: char)
    ensures
        final(s)@ == old(s)@.push(c),
{
    s.push(c);
}

/// Appends `t` at the end of `s`.
pub fn push_str(s: &mut String, t: &str)
    ensures
        final(s)@ == old(s)@ + t@,
{
    s.append(t);
}

/// The characters of `cs[from..to]` as a new `String`.
pub fn collect(cs: &Vec<char>, from: usize, to: usize) -> (r: String)
    requires
        from <= to <= cs@.len(),
    ensures
        r@ == cs@.subrange(from as int, to as int),
{
    let mut out = String::new();
    let mut i = from;
    while i < to
        invariant
            from <= i <= to <= cs@.len(),
            out@ == cs@.subrange(from as int, i as int),
        decreases to - i,
    {
        push_char(&mut out, cs[i]);
        proof {
            assert(cs@.subrange(from as int, i as int).push(cs@[i as int]) =~= cs@.subrange(
                from as int,
                i + 1,
            ));
        }
        i = i + 1;
    }
    out
}

/// Whether `cs[at..]` starts with `prefix`.
pub open spec fn has_prefix_at(cs: Seq<char>, at: int, prefix: Seq<char>) -> bool {
    at + prefix.len() <= cs.len() && cs.subrange(at, at + prefix.len()) == prefix
}

/// Executable [`has_prefix_at`].
pub fn starts_with_at(cs: &Vec<char>, at: usize, prefix: &[char]) -> (r: bool)
    requires
        at <= cs@.len(),
    ensures
        r == has_prefix_at(cs@, at as int, prefix@),
{
    if prefix.len() > cs.len() - at {
        return false;
    }
    let mut i: usize = 0;
    while i < prefix.len()
        invariant
            at + prefix@.len() <= cs@.len(),
            cs@.len() == cs.len(),
            i <= prefix@.len(),
            forall|j: int| 0 <= j < i ==> cs@[at + j] == prefix@[j],
        decreases prefix@.len() - i,
    {
        if cs[at + i] != prefix[i] {
            proof {
                assert(cs@.subrange(at as int, at + prefix@.len())[i as int] == cs@[at + i]);
            }
            return false;
        }
        i = i + 1;
    }
    proof {
        assert(cs@.subrange(at as int, at + prefix@.len()) =~= prefix@);
    }
    true
}

/// First index at or after `from`, and before `to`, that holds `c`.
pub fn find_char(cs: &Vec<char>, from: usize, to: usize, c: char) -> (r: Option<usize>)
    requires
        from <= to <= cs@.len(),
    ensures
        match r {
            Some(i) => from <= i < to && cs@[i as int] == c && forall|j: int|
                from <= j < i ==> cs@[j] != c,
            None => forall|j: int| from <= j < to ==> cs@[j] != c,
        },
{
    let mut i = from;
    while i < to
        invariant
            from <= i <= to <= cs@.len(),
            forall|j: int| from <= j < i ==> cs@[j] != c,
        decreases to - i,
    {
        if cs[i] == c {
            return Some(i);
        }
        i = i + 1;
    }
    None
}

/// Whether the characters of `a` and `b` are the same.
pub fn chars_eq(a: &str, b: &str) -> (r: bool)
    ensures
        r == (a@ == b@),
{
    let ca = to_chars(a);
    let cb = to_chars(b);
    if ca.len() != cb.len() {
        return false;
    }
    let mut i: usize = 0;
    while i < ca.len()
        invariant
            ca@ == a@,
            cb@ == b@,
            ca@.len() == cb@.len(),
            i <= ca@.len(),
            forall|j: int| 0 <= j < i ==> ca@[j] == cb@[j],
        decreases ca@.len() - i,
    {
        if ca[i] != cb[i] {
            return false;
        }
        i = i + 1;
    }
    proof {
        assert(ca@ =~= cb@);
    }
    true
}

/// Decimal digits of `n`, most significant first.
pub open spec fn decimal(n: nat) -> Seq<char>
    decreases n,
{
    if n < 10 {
        seq![digit_char(n)]
    } else {
        decimal(n / 10).push(digit_char(n % 10))
    }
}

/// The digit standing for `d`, which is below 10.
pub open spec fn digit_char(d: nat) -> char {
    (('0' as u32) + d) as char
}

/// `n` written in base ten, as `usize::to_string` writes it.
pub fn usize_to_string(n: usize) -> (r: String)
    ensures
        r@ == decimal(n as nat),
    decreases n,
{
    let d = (n % 10) as u32;
    let c = char_of_digit(d);
    if n < 10 {
        let mut out = String::new();
        push_char(&mut out, c);
        proof {
            assert(out@ =~= decimal(n as nat));
        }
        out
    } else {
        let mut out = usize_to_string(n / 10);
        push_char(&mut out, c);
        out
    }
}

/// `n` written in base ten, with a `-` when it is negative.
pub open spec fn signed_decimal(n: int) -> Seq<char> {
    if n < 0 {
        seq!['-'] + decimal((-n) as nat)
    } else {
        decimal(n as nat)
    }
}

/// `n` written in base ten, as `i64::to_string` writes it.
pub fn i64_to_string(n: i64) -> (r: String)
    ensures
        r@ == signed_decimal(n as int),
{
    if n < 0 {
        let m: u64 = if n == i64::MIN {
            9223372036854775808u64
        } else {
            (-n) as u64
        };
        let digits = u64_to_string(m);
        let mut out = String::new();
        push_char(&mut out, '-');
        push_str(&mut out, digits.as_str());
        proof {
            assert(seq!['-'] =~= Seq::<char>::empty().push('-'));
        }
        out
    } else {
        u64_to_string(n as u64)
    }
}

/// `n` written in base ten.
fn u64_to_string(n: u64) -> (r: String)
    ensures
        r@ == decimal(n as nat),
    decreases n,
{
    let d = (n % 10) as u32;
    let c = char_of_digit(d);
    if n < 10 {
        let mut out = String::new();
        push_char(&mut out, c);
        proof {
            assert(out@ =~= decimal(n as nat));
        }
        out
    } else {
        let mut out = u64_to_string(n / 10);
        push_char(&mut out, c);
        out
    }
}

/// The character of the digit `d`.
fn char_of_digit(d: u32) -> (r: char)
    requires
        d < 10,
    ensures
        r == digit_char(d as nat),
{
    if d == 0 {
        '0'
    } else if d == 1 {
        '1'
    } else if d == 2 {
        '2'
    } else if d == 3 {
        '3'
    } else if d == 4 {
        '4'
    } else if d == 5 {
        '5'
    } else if d == 6 {
        '6'
    } else if d == 7 {
        '7'
    } else if d == 8 {
        '8'
    } else {
        '9'
    }
}

/// Number of decimal digits of `n`.
pub open spec fn ndigits(n: nat) -> nat
    decreases n,
{
    if n < 10 {
        1
    } else {
        1 + ndigits(n / 10)
    }
}

/// The decimal form of `n` is [`ndigits`] long.
pub proof fn lemma_decimal_len(n: nat)
    ensures
        decimal(n).len() == ndigits(n),
    decreases n,
{
    if n >= 10 {
        lemma_decimal_len(n / 10);
    }
}

/// `c` repeated `n` times.
pub open spec fn repeat(c: char, n: nat) -> Seq<char> {
    Seq::new(n, |i: int| c)
}

/// Appends `n` copies of `c` to `s`.
pub fn push_repeat(s: &mut String, c: char, n: usize)
    ensures
        final(s)@ == old(s)@ + repeat(c, n as nat),
{
    let mut i: usize = 0;
    while i < n
        invariant
            i <= n,
            s@ == old(s)@ + repeat(c, i as nat),
        decreases n - i,
    {
        push_char(s, c);
        proof {
            assert(old(s)@ + repeat(c, i as nat) + seq![c] =~= old(s)@ + repeat(c, (i + 1) as nat));
        }
        i = i + 1;
    }
}

/// Number of characters of `t` that fit whole in its first `b` bytes.
pub open spec fn chars_before(t: Seq<char>, b: int) -> nat
    decreases t.len(),
{
    if t.len() == 0 || cwidth(t[0]) > b {
        0
    } else {
        1 + chars_before(t.drop_first(), b - cwidth(t[0]))
    }
}

/// Fewer bytes never hold more characters.
pub proof fn lemma_chars_before_mono(t: Seq<char>, a: int, b: int)
    requires
        a <= b,
    ensures
        chars_before(t, a) <= chars_before(t, b),
        chars_before(t, b) <= t.len(),
    decreases t.len(),
{
    if t.len() > 0 && cwidth(t[0]) <= a {
        lemma_chars_before_mono(t.drop_first(), a - cwidth(t[0]), b - cwidth(t[0]));
    } else if t.len() > 0 && cwidth(t[0]) <= b {
        lemma_chars_before_mono(t.drop_first(), 0, b - cwidth(t[0]));
    }
}

/// Number of characters of `text` before the byte offset `byte_col`.
pub fn char_col(text: &str, byte_col: usize) -> (r: usize)
    ensures
        r == chars_before(text@, byte_col as int),
        r <= text@.len(),
{
    let cs = to_chars(text);
    let mut i: usize = 0;
    let mut left: usize = byte_col;
    proof {
        assert(cs@.skip(0) =~= cs@);
    }
    while i < cs.len() && char_width(cs[i]) <= left
        invariant
            cs@ == text@,
            i <= cs@.len(),
            chars_before(text@, byte_col as int) == i + chars_before(cs@.skip(i as int), left as int),
        decreases cs@.len() - i,
    {
        proof {
            assert(cs@.skip(i as int).drop_first() =~= cs@.skip(i + 1));
            assert(cs@.skip(i as int)[0] == cs@[i as int]);
        }
        left = left - char_width(cs[i]);
        i = i + 1;
    }
    proof {
        if i < cs@.len() {
            assert(cs@.skip(i as int)[0] == cs@[i as int]);
        } else {
            assert(cs@.skip(i as int).len() == 0);
        }
        lemma_chars_before_mono(text@, 0, byte_col as int);
    }
    i
}

} // verus!
