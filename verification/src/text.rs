//! Text produced and compared by the engine: decimal digits of integers, the
//! hyphenated form of UUIDs, lower-casing, string equality and SQL string
//! literals.
use vstd::prelude::*;
use vstd::string::StringExecFns;
use vstd::string::StrSliceExecFns;

verus! {

/// The character of a decimal digit.
pub open spec fn digit_char(d: int) -> char {
    (48 + d) as char
}

/// The character of a lowercase hexadecimal digit.
pub open spec fn hex_char(d: int) -> char {
    if d < 10 {
        (48 + d) as char
    } else {
        (87 + d) as char
    }
}

/// The decimal digits of `n`, most significant first, with no leading zeros.
pub open spec fn decimal_digits(n: nat) -> Seq<char>
    decreases n,
{
    if n < 10 {
        seq![digit_char(n as int)]
    } else {
        decimal_digits(n / 10).push(digit_char((n % 10) as int))
    }
}

/// 16 to the power `n`.
pub open spec fn pow16(n: nat) -> int
    decreases n,
{
    if n == 0 {
        1
    } else {
        16 * pow16((n - 1) as nat)
    }
}

/// The 32 lowercase hexadecimal digits of a 128-bit value, most significant
/// first.
pub open spec fn hex32(v: u128) -> Seq<char> {
    Seq::new(32, |i: int| hex_char((v as int / pow16((31 - i) as nat)) % 16))
}

/// The hyphenated lowercase text of a UUID, `8-4-4-4-12` hex digits.
pub open spec fn uuid_text(v: u128) -> Seq<char> {
    let h = hex32(v);
    h.subrange(0, 8) + seq!['-'] + h.subrange(8, 12) + seq!['-'] + h.subrange(12, 16) + seq!['-']
        + h.subrange(16, 20) + seq!['-'] + h.subrange(20, 32)
}

/// Every character is a lowercase ASCII letter or an underscore.
pub open spec fn is_lowercase_word(s: Seq<char>) -> bool {
    forall|i: int| 0 <= i < s.len() ==> ('a' <= #[trigger] s[i] && s[i] <= 'z') || s[i] == '_'
}

/// Every character is an ASCII letter, an ASCII digit or an underscore.
pub open spec fn is_ascii_word(s: Seq<char>) -> bool {
    forall|i: int|
        0 <= i < s.len() ==> ('a' <= #[trigger] s[i] && s[i] <= 'z') || ('A' <= s[i] && s[i]
            <= 'Z') || ('0' <= s[i] && s[i] <= '9') || s[i] == '_'
}

/// An ASCII uppercase letter as its lowercase letter; any other character
/// as itself.
pub open spec fn ascii_lower_char(c: char) -> char {
    if 'A' <= c && c <= 'Z' {
        ((c as u32) + 32) as char
    } else {
        c
    }
}

/// The text with each ASCII uppercase letter made lowercase.
pub open spec fn ascii_lower(s: Seq<char>) -> Seq<char> {
    s.map_values(|c: char| ascii_lower_char(c))
}

/// What `str::to_lowercase` returns for a text.
pub uninterp spec fn lowercase_text(s: Seq<char>) -> Seq<char>;

/// The one-character text of the decimal digit `d`.
fn digit_text(d: u64) -> (r: &'static str)
    requires
        d < 10,
    ensures
        r@ == seq![digit_char(d as int)],
{
    proof {
        reveal_strlit("0");
        reveal_strlit("1");
        reveal_strlit("2");
        reveal_strlit("3");
        reveal_strlit("4");
        reveal_strlit("5");
        reveal_strlit("6");
        reveal_strlit("7");
        reveal_strlit("8");
        reveal_strlit("9");
    }
    match d {
        0 => "0",
        1 => "1",
        2 => "2",
        3 => "3",
        4 => "4",
        5 => "5",
        6 => "6",
        7 => "7",
        8 => "8",
        _ => "9",
    }
}

/// The decimal digits of `n`, as `n.to_string()` writes them.
pub fn u64_to_string(n: u64) -> (r: String)
    ensures
        r@ == decimal_digits(n as nat),
    decreases n,
{
    let last = digit_text(n % 10);
    if n < 10 {
        String::from_str(last)
    } else {
        let mut s = u64_to_string(n / 10);
        s.append(last);
        s
    }
}

/// `uuid::Uuid::from_u128(v).to_string()`: the hyphenated lowercase form.
#[verifier::external_body]
pub(crate) fn uuid_to_string(v: u128) -> (r: String)
    ensures
        r@ == uuid_text(v),
{
    uuid::Uuid::from_u128(v).to_string()
}

/// `str::to_lowercase`: the lowercase equivalent of the text.  Claimed
/// besides the name: a text made only of lowercase ASCII letters and
/// underscores, which have no other lowercase form, comes back unchanged;
/// and in a text of ASCII letters, digits and underscores each uppercase
/// letter becomes its lowercase letter and every other character stays (the
/// Unicode lowercase mapping of ASCII is the ASCII one).
#[verifier::external_body]
pub(crate) fn str_to_lowercase(s: &str) -> (r: String)
    ensures
        r@ == lowercase_text(s@),
        is_lowercase_word(s@) ==> r@ == s@,
        is_ascii_word(s@) ==> r@ == ascii_lower(s@),
{
    s.to_lowercase()
}

/// Whether two texts hold the same characters, as `==` on string slices.
pub fn str_eq(a: &str, b: &str) -> (r: bool)
    ensures
        r == (a@ == b@),
{
    let n = a.unicode_len();
    if n != b.unicode_len() {
        return false;
    }
    let mut i: usize = 0;
    while i < n
        invariant
            n == a@.len(),
            n == b@.len(),
            i <= n,
            forall|j: int| 0 <= j < i ==> a@[j] == b@[j],
        decreases n - i,
    {
        if a.get_char(i) != b.get_char(i) {
            return false;
        }
        i = i + 1;
    }
    assert(a@ =~= b@);
    true
}

/// `text` as an SQL string literal: between single quotes, with each
/// single quote inside written twice.
pub open spec fn sql_quoted(text: Seq<char>) -> Seq<char> {
    seq!['\''] + sql_escaped(text) + seq!['\'']
}

/// `text` with each single quote written twice.
pub open spec fn sql_escaped(text: Seq<char>) -> Seq<char>
    decreases text.len(),
{
    if text.len() == 0 {
        Seq::empty()
    } else if text.last() == '\'' {
        sql_escaped(text.drop_last()) + seq!['\'', '\'']
    } else {
        sql_escaped(text.drop_last()).push(text.last())
    }
}

/// `text` as an SQL string literal (see `sql_quoted`).
pub fn text_sql(text: &str) -> (r: String)
    ensures
        r@ == sql_quoted(text@),
{
    proof {
        reveal_strlit("'");
    }
    let n = text.unicode_len();
    let mut out = String::from_str("'");
    let mut i: usize = 0;
    while i < n
        invariant
            n == text@.len(),
            i <= n,
            out@ == seq!['\''] + sql_escaped(text@.subrange(0, i as int)),
        decreases n - i,
    {
        let piece = text.substring_char(i, i + 1);
        let ghost prefix = text@.subrange(0, i + 1);
        assert(prefix.drop_last() =~= text@.subrange(0, i as int));
        assert(prefix.last() == text@[i as int]);
        let c = text.get_char(i);
        if c == '\'' {
            proof {
                reveal_strlit("''");
            }
            out.append("''");
            assert(out@ =~= seq!['\''] + sql_escaped(prefix));
        } else {
            assert(piece@ =~= seq![c]);
            out.append(piece);
            assert(out@ =~= seq!['\''] + sql_escaped(prefix));
        }
        i = i + 1;
    }
    assert(text@.subrange(0, n as int) =~= text@);
    out.append("'");
    out
}

/// `a` followed by `b`, as a new string.
pub fn concat(a: &str, b: &str) -> (r: String)
    ensures
        r@ == a@ + b@,
{
    let mut s = a.to_owned();
    s.append(b);
    s
}

} // verus!
