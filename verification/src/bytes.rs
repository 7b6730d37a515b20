//! Byte classes of the candidate grammar and runs of bytes of one class.

use vstd::prelude::*;

verus! {

/// The space.
pub const SPACE: u8 = 0x20;

/// The dot that parts the numbers of an IPv4 address.
pub const DOT: u8 = 0x2E;

/// The colon that parts the groups of an IPv6 address.
pub const COLON: u8 = 0x3A;

/// Why a grammar rule did not match.
#[derive(Clone, Copy, Debug, PartialEq, Eq, Structural, Hash)]
pub enum ErrorKind {
    /// A literal was expected and other bytes were found.
    Tag,
    /// No byte of the wanted class stands at the start of the input.
    TakeWhile1,
    /// A terminator stands where a token was expected.
    TakeTill1,
    /// The matched text is longer than the rule allows.
    Verify,
    /// The matched text does not denote a value of the field's type.
    MapRes,
    /// A letter was expected.
    Alpha,
    /// A decimal digit was expected.
    Digit,
    /// A space was expected.
    Space,
    /// The input ended where the rule needs at least one more byte.
    Incomplete,
}

/// The classes of bytes that the grammar's tokens are made of.
#[derive(Clone, Copy, Debug, PartialEq, Eq, Structural)]
pub enum ByteClass {
    /// `0`-`9`
    Digit,
    /// `A`-`Z` and `a`-`z`
    Alpha,
    /// `ice-char`: a letter, a digit, `+` or `/`
    IceChar,
    /// A byte of a textual address: a hexadecimal digit, `.` or `:`
    IpChar,
    /// A byte of an extension name or value: anything but NUL, LF, CR and space
    Token,
    /// The space
    Space,
}

/// `c` is one of `0`-`9`.
pub open spec fn dec_digit(c: u8) -> bool {
    0x30 <= c <= 0x39
}

/// `c` is one of `A`-`Z` and `a`-`z`.
pub open spec fn ascii_letter(c: u8) -> bool {
    (0x41 <= c <= 0x5A) || (0x61 <= c <= 0x7A)
}

/// `c` is one of `0`-`9`, `A`-`F` and `a`-`f`.
pub open spec fn hex_digit(c: u8) -> bool {
    (0x30 <= c <= 0x39) || (0x41 <= c <= 0x46) || (0x61 <= c <= 0x66)
}

/// `c` is an ASCII letter or a decimal digit.
pub open spec fn letter_or_digit(c: u8) -> bool {
    ascii_letter(c) || dec_digit(c)
}

/// `c` is an ice-char: a letter, a digit, `+` (0x2B) or `/` (0x2F).
pub open spec fn is_ice_char_spec(c: u8) -> bool {
    letter_or_digit(c) || c == 0x2B || c == 0x2F
}

/// `c` may occur in a textual address: a hexadecimal digit, `.` or `:`.
pub open spec fn is_ip_char_spec(c: u8) -> bool {
    hex_digit(c) || c == DOT || c == COLON
}

/// `c` may occur in an extension name or value: it is none of NUL, LF, CR
/// and space.
pub open spec fn is_token_byte(c: u8) -> bool {
    !(c == 0x00 || c == 0x0A || c == 0x0D || c == SPACE)
}

impl ByteClass {
    /// Whether `c` belongs to the class.
    pub open spec fn has(self, c: u8) -> bool {
        match self {
            ByteClass::Digit => dec_digit(c),
            ByteClass::Alpha => ascii_letter(c),
            ByteClass::IceChar => is_ice_char_spec(c),
            ByteClass::IpChar => is_ip_char_spec(c),
            ByteClass::Token => is_token_byte(c),
            ByteClass::Space => c == SPACE,
        }
    }
}

/// The length of the longest prefix of `s` whose bytes all belong to `class`.
pub open spec fn run_len(s: Seq<u8>, class: ByteClass) -> nat
    decreases s.len(),
{
    if s.len() == 0 || !class.has(s[0]) {
        0
    } else {
        1 + run_len(s.skip(1), class)
    }
}

/// `nom::is_alphanumeric` tells whether the byte is an ASCII letter or an
/// ASCII decimal digit.
pub assume_specification[ nom::is_alphanumeric ](chr: u8) -> (r: bool)
    ensures
        r == letter_or_digit(chr),
;

/// `nom::is_hex_digit` tells whether the byte is one of `0`-`9`, `A`-`F`,
/// `a`-`f`.
pub assume_specification[ nom::is_hex_digit ](chr: u8) -> (r: bool)
    ensures
        r == hex_digit(chr),
;

/// Return whether the specified byte is a valid ice-char.
///
/// ```ebnf,ignore
/// ice-char = ALPHA / DIGIT / "+" / "/"
/// ```
pub fn is_ice_char(c: u8) -> (r: bool)
    ensures
        r == is_ice_char_spec(c),
{
    nom::is_alphanumeric(c) || c == 0x2B || c == 0x2F
}

/// Return whether the specified byte may occur in a textual address.
pub fn is_ip_char(c: u8) -> (r: bool)
    ensures
        r == is_ip_char_spec(c),
{
    nom::is_hex_digit(c) || c == DOT || c == COLON
}

/// What a rule that takes the longest run of bytes of one class yields: the
/// rest of the input and the run, `Incomplete` on empty input, and `kind`
/// where the first byte is not of the class.
pub open spec fn run_result(s: Seq<u8>, class: ByteClass, kind: ErrorKind) -> Result<
    (Seq<u8>, Seq<u8>),
    ErrorKind,
> {
    let n = run_len(s, class) as int;
    if s.len() == 0 {
        Err(ErrorKind::Incomplete)
    } else if n == 0 {
        Err(kind)
    } else {
        Ok((s.skip(n), s.take(n)))
    }
}

/// The contents of a pair of slices, or the error in their place.
pub open spec fn slices_view(r: Result<(&[u8], &[u8]), ErrorKind>) -> Result<
    (Seq<u8>, Seq<u8>),
    ErrorKind,
> {
    match r {
        Ok((rest, out)) => Ok((rest@, out@)),
        Err(e) => Err(e),
    }
}

/// The run has at most the input's length, holds only bytes of the class,
/// and ends at the input's end or before a byte outside the class.
pub proof fn lemma_run_len_bounds(s: Seq<u8>, class: ByteClass)
    ensures
        run_len(s, class) <= s.len(),
        forall|i: int| 0 <= i < run_len(s, class) ==> class.has(#[trigger] s[i]),
        run_len(s, class) < s.len() ==> !class.has(s[run_len(s, class) as int]),
    decreases s.len(),
{
    if s.len() == 0 || !class.has(s[0]) {
    } else {
        let t = s.skip(1);
        lemma_run_len_bounds(t, class);
        assert forall|i: int| 0 <= i < run_len(s, class) implies class.has(#[trigger] s[i]) by {
            if i > 0 {
                assert(s[i] == t[i - 1]);
            }
        }
        if run_len(s, class) < s.len() {
            assert(s[run_len(s, class) as int] == t[run_len(t, class) as int]);
        }
    }
}

/// A length with the three properties of a run is the run's length.
pub proof fn lemma_run_len_is(s: Seq<u8>, class: ByteClass, n: int)
    requires
        0 <= n <= s.len(),
        forall|i: int| 0 <= i < n ==> class.has(#[trigger] s[i]),
        n < s.len() ==> !class.has(s[n]),
    ensures
        run_len(s, class) == n,
    decreases s.len(),
{
    if n == 0 {
    } else {
        let t = s.skip(1);
        assert(class.has(s[0]));
        assert forall|i: int| 0 <= i < n - 1 implies class.has(#[trigger] t[i]) by {
            assert(t[i] == s[i + 1]);
        }
        if n - 1 < t.len() {
            assert(t[n - 1] == s[n]);
        }
        lemma_run_len_is(t, class, n - 1);
    }
}

impl ByteClass {
    /// Whether `c` belongs to the class.
    pub fn contains(self, c: u8) -> (r: bool)
        ensures
            r == self.has(c),
    {
        match self {
            ByteClass::Digit => 0x30 <= c && c <= 0x39,
            ByteClass::Alpha => (0x41 <= c && c <= 0x5A) || (0x61 <= c && c <= 0x7A),
            ByteClass::IceChar => is_ice_char(c),
            ByteClass::IpChar => is_ip_char(c),
            ByteClass::Token => !(c == 0x00 || c == 0x0A || c == 0x0D || c == SPACE),
            ByteClass::Space => c == SPACE,
        }
    }
}

/// Take the longest run of bytes of `class` from the start of `input`, which
/// must hold at least one; `kind` is the error where the first byte is not
/// of the class.
pub fn take_run(input: &[u8], class: ByteClass, kind: ErrorKind) -> (r: Result<
    (&[u8], &[u8]),
    ErrorKind,
>)
    ensures
        slices_view(r) == run_result(input@, class, kind),
{
    if input.len() == 0 {
        return Err(ErrorKind::Incomplete);
    }
    let mut n: usize = 0;
    while n < input.len() && class.contains(input[n])
        invariant
            n <= input.len(),
            forall|i: int| 0 <= i < n ==> class.has(#[trigger] input@[i]),
        decreases input.len() - n,
    {
        n += 1;
    }
    proof {
        lemma_run_len_is(input@, class, n as int);
    }
    if n == 0 {
        return Err(kind);
    }
    let out = &input[0..n];
    let rest = &input[n..input.len()];
    assert(out@ == input@.take(n as int));
    assert(rest@ == input@.skip(n as int));
    Ok((rest, out))
}

/// `nom::digit` on a byte slice: the longest run of ASCII decimal digits at
/// the start of the input and the rest behind it. Empty input is
/// incomplete, and a first byte that is no digit is an error.
#[verifier::external_body]
pub(crate) fn nom_digit(input: &[u8]) -> (r: Result<(&[u8], &[u8]), ErrorKind>)
    ensures
        slices_view(r) == run_result(input@, ByteClass::Digit, ErrorKind::Digit),
{
    match nom::digit(input) {
        nom::IResult::Done(rest, out) => Ok((rest, out)),
        nom::IResult::Error(_) => Err(ErrorKind::Digit),
        nom::IResult::Incomplete(_) => Err(ErrorKind::Incomplete),
    }
}

/// `nom::alpha` on a byte slice: the longest run of ASCII letters at the
/// start of the input and the rest behind it. Empty input is incomplete,
/// and a first byte that is no letter is an error.
#[verifier::external_body]
pub(crate) fn nom_alpha(input: &[u8]) -> (r: Result<(&[u8], &[u8]), ErrorKind>)
    ensures
        slices_view(r) == run_result(input@, ByteClass::Alpha, ErrorKind::Alpha),
{
    match nom::alpha(input) {
        nom::IResult::Done(rest, out) => Ok((rest, out)),
        nom::IResult::Error(_) => Err(ErrorKind::Alpha),
        nom::IResult::Incomplete(_) => Err(ErrorKind::Incomplete),
    }
}

/// Whether the two slices hold the same bytes.
pub fn same_bytes(a: &[u8], b: &[u8]) -> (r: bool)
    ensures
        r == (a@ == b@),
{
    if a.len() != b.len() {
        return false;
    }
    let mut i: usize = 0;
    while i < a.len()
        invariant
            i <= a.len(),
            a.len() == b.len(),
            forall|k: int| 0 <= k < i ==> a@[k] == b@[k],
        decreases a.len() - i,
    {
        if a[i] != b[i] {
            return false;
        }
        i += 1;
    }
    assert(a@ =~= b@);
    true
}

/// Every byte of `s` is below 0x80.
pub open spec fn all_ascii(s: Seq<u8>) -> bool {
    forall|i: int| 0 <= i < s.len() ==> #[trigger] s[i] < 0x80
}

/// The characters that ASCII bytes stand for, one for each byte.
pub open spec fn ascii_text(s: Seq<u8>) -> Seq<char> {
    Seq::new(s.len(), |i: int| s[i] as char)
}

/// `std::str::from_utf8`: bytes that are all ASCII are valid UTF-8, and the
/// text holds one character for each of them, with the byte's code.
/// Nothing is claimed of other bytes.
#[verifier::external_body]
pub(crate) fn utf8_text(bytes: &[u8]) -> (r: Option<&str>)
    ensures
        all_ascii(bytes@) ==> r.is_some() && r.unwrap()@ == ascii_text(bytes@),
{
    match std::str::from_utf8(bytes) {
        Ok(text) => Some(text),
        Err(_) => None,
    }
}

} // verus!
