use vstd::prelude::*;
use vstd::string::StrSliceExecFns;

verus! {

/// The characters standing for a byte sequence: each byte as the character
/// with the same code. DNS carries names as raw octets; the engine keeps them
/// in strings whose characters all have codes below 256.
pub open spec fn chars_of_bytes(b: Seq<u8>) -> Seq<char> {
    b.map(|i: int, x: u8| x as char)
}

/// Each character's code as a byte; faithful exactly when every code is
/// below 256.
pub open spec fn bytes_of_chars(s: Seq<char>) -> Seq<u8> {
    s.map(|i: int, c: char| (c as u32) as u8)
}

/// Every character of `s` has a code below 256, so the string stands for a
/// byte sequence without loss.
pub open spec fn chars_fit_bytes(s: Seq<char>) -> bool {
    forall|i: int| 0 <= i < s.len() ==> ((#[trigger] s[i]) as u32) < 256
}

/// `b` is a suffix of `a`.
pub open spec fn is_char_suffix(a: Seq<char>, b: Seq<char>) -> bool {
    b.len() <= a.len() && a.subrange(a.len() - b.len(), a.len() as int) == b
}

pub proof fn lemma_chars_bytes_roundtrip(s: Seq<char>)
    requires
        chars_fit_bytes(s),
    ensures
        chars_of_bytes(bytes_of_chars(s)) == s,
{
    assert forall|i: int| 0 <= i < s.len() implies chars_of_bytes(bytes_of_chars(s))[i] == s[i] by {
        let c = s[i];
        let b = bytes_of_chars(s)[i];
        assert((c as u32) < 256);
        assert(b == (c as u32) as u8);
        assert(b as u32 == c as u32);
        vstd::utf8::char_u32_cast(c, c as u32);
        assert((b as u32) as char == c);
        assert(b as char == (b as u32) as char);
        assert(chars_of_bytes(bytes_of_chars(s))[i] == b as char);
    }
    assert(chars_of_bytes(bytes_of_chars(s)) =~= s);
}

/// Relies on String::push: appends one character to the string.
#[verifier::external_body]
pub fn push_char(s: &mut String, c: char)
    ensures
        final(s)@ == old(s)@.push(c),
{
    s.push(c)
}

/// Builds the string whose characters are the bytes of `b`.
pub fn string_of_bytes(b: &[u8]) -> (r: String)
    ensures
        r@ == chars_of_bytes(b@),
{
    let mut out = String::new();
    let mut i: usize = 0;
    while i < b.len()
        invariant
            i <= b@.len(),
            out@ == chars_of_bytes(b@.subrange(0, i as int)),
        decreases b@.len() - i,
    {
        push_char(&mut out, b[i] as char);
        i = i + 1;
        proof {
            assert(chars_of_bytes(b@.subrange(0, i as int)) =~= chars_of_bytes(
                b@.subrange(0, i - 1),
            ).push(b@[i - 1] as char));
        }
    }
    proof {
        assert(b@.subrange(0, b@.len() as int) =~= b@);
    }
    out
}

/// The bytes a string stands for, or `None` when some character's code does
/// not fit a byte.
pub fn bytes_of_str(s: &str) -> (r: Option<Vec<u8>>)
    ensures
        r is Some <==> chars_fit_bytes(s@),
        r is Some ==> r->Some_0@ == bytes_of_chars(s@),
{
    let n = s.unicode_len();
    let mut out: Vec<u8> = Vec::new();
    let mut i: usize = 0;
    while i < n
        invariant
            n == s@.len(),
            i <= n,
            forall|j: int| 0 <= j < i ==> ((#[trigger] s@[j]) as u32) < 256,
            out@ == bytes_of_chars(s@.subrange(0, i as int)),
        decreases n - i,
    {
        let c = s.get_char(i);
        let code = c as u32;
        if code >= 256 {
            return None;
        }
        out.push(code as u8);
        i = i + 1;
        proof {
            assert(bytes_of_chars(s@.subrange(0, i as int)) =~= bytes_of_chars(
                s@.subrange(0, i - 1),
            ).push((s@[i - 1] as u32) as u8));
        }
    }
    proof {
        assert(s@.subrange(0, s@.len() as int) =~= s@);
    }
    Some(out)
}

/// Character-exact string equality.
pub fn str_eq(a: &str, b: &str) -> (r: bool)
    ensures
        r == (a@ == b@),
{
    let la = a.unicode_len();
    let lb = b.unicode_len();
    if la != lb {
        return false;
    }
    let mut i: usize = 0;
    while i < la
        invariant
            la == a@.len(),
            la == b@.len(),
            i <= la,
            forall|j: int| 0 <= j < i ==> a@[j] == b@[j],
        decreases la - i,
    {
        if a.get_char(i) != b.get_char(i) {
            return false;
        }
        i = i + 1;
    }
    proof {
        assert(a@ =~= b@);
    }
    true
}

/// Whether `a` ends with `b`, character for character.
pub fn str_ends_with(a: &str, b: &str) -> (r: bool)
    ensures
        r == is_char_suffix(a@, b@),
{
    let la = a.unicode_len();
    let lb = b.unicode_len();
    if lb > la {
        return false;
    }
    let mut i: usize = 0;
    while i < lb
        invariant
            la == a@.len(),
            lb == b@.len(),
            lb <= la,
            i <= lb,
            forall|j: int| 0 <= j < i ==> a@[la - lb + j] == b@[j],
        decreases lb - i,
    {
        if a.get_char(la - lb + i) != b.get_char(i) {
            proof {
                assert(a@.subrange(la - lb, la as int)[i as int] == a@[la - lb + i]);
            }
            return false;
        }
        i = i + 1;
    }
    proof {
        assert(a@.subrange(la - lb, la as int) =~= b@);
    }
    true
}

/// Strict lexicographic order on character sequences, by character code.
pub open spec fn lex_lt(a: Seq<char>, b: Seq<char>) -> bool
    decreases a.len(),
{
    if b.len() == 0 {
        false
    } else if a.len() == 0 {
        true
    } else if a[0] != b[0] {
        (a[0] as u32) < (b[0] as u32)
    } else {
        lex_lt(a.drop_first(), b.drop_first())
    }
}

/// Whether `a` sorts strictly before `b`, character code by character code.
pub fn str_lt(a: &str, b: &str) -> (r: bool)
    ensures
        r == lex_lt(a@, b@),
{
    let la = a.unicode_len();
    let lb = b.unicode_len();
    let mut i: usize = 0;
    proof {
        assert(a@.skip(0) =~= a@);
        assert(b@.skip(0) =~= b@);
    }
    while i < la && i < lb
        invariant
            la == a@.len(),
            lb == b@.len(),
            i <= la,
            i <= lb,
            lex_lt(a@, b@) == lex_lt(a@.skip(i as int), b@.skip(i as int)),
        decreases la - i,
    {
        let ca = a.get_char(i);
        let cb = b.get_char(i);
        if ca != cb {
            proof {
                assert(a@.skip(i as int)[0] == a@[i as int]);
                assert(b@.skip(i as int)[0] == b@[i as int]);
            }
            return (ca as u32) < (cb as u32);
        }
        i = i + 1;
        proof {
            assert(a@.skip(i - 1).drop_first() =~= a@.skip(i as int));
            assert(b@.skip(i - 1).drop_first() =~= b@.skip(i as int));
            assert(a@.skip(i - 1)[0] == a@[i - 1]);
            assert(b@.skip(i - 1)[0] == b@[i - 1]);
        }
    }
    la < lb
}

} // verus!
