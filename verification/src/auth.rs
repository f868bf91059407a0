//! Who may use the service.

use vstd::prelude::*;
use vstd::utf8;

verus! {

/// What the header of a request that knows the key holds.
pub open spec fn credentials(key: Seq<char>) -> Seq<u8> {
    utf8::encode_utf8("Bearer "@) + utf8::encode_utf8(key)
}

/// Whether a request may be served: its `Authorization` header holds the word
/// `Bearer`, a space and the key. Of a header of the right length every byte
/// is looked at, so that the time this takes tells nothing of the key.
pub fn is_authorized(header: Option<&[u8]>, key: &str) -> (r: bool)
    ensures
        r == (header matches Some(value) && value@ == credentials(key@)),
{
    let value = match header {
        None => {
            return false;
        },
        Some(value) => value,
    };
    let scheme = "Bearer ".as_bytes();
    let secret = key.as_bytes();
    let ghost wanted = credentials(key@);
    let m = scheme.len();
    let n = value.len();
    if n < m || n - m != secret.len() {
        return false;
    }
    let mut differences: u8 = 0;
    let mut i: usize = 0;
    while i < n
        invariant
            i <= n,
            n == value@.len(),
            m == scheme@.len(),
            n == m + secret@.len(),
            wanted == scheme@ + secret@,
            differences == 0 <==> forall|k: int| 0 <= k < i ==> value@[k] == wanted[k],
        decreases n - i,
    {
        let want: u8 = if i < m { scheme[i] } else { secret[i - m] };
        assert(want == wanted[i as int]);
        let have: u8 = value[i];
        let d: u8 = have ^ want;
        let now: u8 = differences | d;
        assert((have ^ want) == 0 <==> have == want) by (bit_vector);
        assert((differences | d) == 0 <==> (differences == 0 && d == 0)) by (bit_vector);
        differences = now;
        i = i + 1;
    }
    assert(differences == 0 <==> value@ =~= wanted);
    differences == 0
}

/// A request that is served with one key is not served with another.
pub proof fn law_credentials_tell_keys_apart(a: Seq<char>, b: Seq<char>)
    requires
        credentials(a) == credentials(b),
    ensures
        a == b,
{
    let scheme = utf8::encode_utf8("Bearer "@);
    let m = scheme.len() as int;
    assert(credentials(a).skip(m) =~= utf8::encode_utf8(a));
    assert(credentials(b).skip(m) =~= utf8::encode_utf8(b));
    crate::text::lemma_encode_injective(a, b);
}

/// A request shows the word `Bearer`, one space and the bytes of the key: byte
/// by byte, and nothing behind them.
pub proof fn law_credentials_are_the_scheme_and_the_key(key: Seq<char>)
    ensures
        credentials(key) == seq![0x42u8, 0x65, 0x61, 0x72, 0x65, 0x72, 0x20] + utf8::encode_utf8(
            key,
        ),
{
    reveal_strlit("Bearer ");
    let word = "Bearer "@;
    assert(utf8::is_ascii_chars(word));
    utf8::is_ascii_chars_encode_utf8(word);
    assert(utf8::encode_utf8(word) =~= seq![0x42u8, 0x65, 0x61, 0x72, 0x65, 0x72, 0x20]);
}

} // verus!
