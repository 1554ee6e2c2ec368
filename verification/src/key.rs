//! The keys that name endpoints, their text, and their order.

use crate::text::{from_chars, hex, hex_digit, to_chars};
use vstd::prelude::*;

verus! {

/// The reason a text is not an endpoint key. Opaque: callers only learn that
/// parsing failed.
#[verifier::external_type_specification]
#[verifier::external_body]
pub struct ExKeyParsingError(iroh::KeyParsingError);

/// Whether 32 bytes are an endpoint key, that is whether
/// `iroh::EndpointId::from_bytes` accepts them.
pub uninterp spec fn is_key(bytes: Seq<u8>) -> bool;

/// The bytes of the key that `iroh::EndpointId::from_str` reads from a text, if
/// it reads one.
pub uninterp spec fn key_of_text(s: Seq<char>) -> Option<Seq<u8>>;

/// Asks `iroh::EndpointId::from_bytes` whether the bytes are a key. The answer
/// depends on the bytes alone.
#[verifier::external_body]
fn check_bytes(bytes: &[u8; 32]) -> (r: bool)
    ensures
        r == is_key(bytes@),
{
    iroh::EndpointId::from_bytes(bytes).is_ok()
}

/// Reads a key with `iroh::EndpointId::from_str`. What it reads depends on the
/// text alone and is a key of 32 bytes. The 64 lower-case hexadecimal digits of
/// a key read back as that key.
#[verifier::external_body]
fn parse_bytes(s: &str) -> (r: Result<[u8; 32], iroh::KeyParsingError>)
    ensures
        match r {
            Ok(b) => key_of_text(s@) == Some(b@) && is_key(b@),
            Err(_) => key_of_text(s@) is None,
        },
        forall|b: Seq<u8>| b.len() == 32 && is_key(b) && s@ == #[trigger] hex(b) ==> r is Ok && r->Ok_0@ == b,
{
    s.parse::<iroh::EndpointId>().map(|k| *k.as_bytes())
}

/// Prints a key with the `Display` of `iroh::EndpointId`: two lower-case
/// hexadecimal digits for each byte, which its `FromStr` reads back as that key.
#[verifier::external_body]
fn print_bytes(bytes: &[u8; 32]) -> (s: String)
    requires
        is_key(bytes@),
    ensures
        s@ == hex(bytes@),
        key_of_text(s@) == Some(bytes@),
{
    iroh::EndpointId::from_bytes(bytes).unwrap().to_string()
}

/// The key that identifies an endpoint: 32 bytes that are an Ed25519 public key.
#[derive(Copy, Clone, PartialEq, Eq, PartialOrd, Ord, Debug, Hash)]
pub struct EndpointId {
    bytes: [u8; 32],
}

/// The text does not hold an endpoint key.
#[derive(Copy, Clone, PartialEq, Eq, Debug)]
pub struct InvalidKey;

impl View for EndpointId {
    type V = Seq<u8>;

    closed spec fn view(&self) -> Seq<u8> {
        self.bytes@
    }
}

/// The bytes of an optional id.
pub open spec fn opt_id(o: Option<EndpointId>) -> Option<Seq<u8>> {
    match o {
        Some(k) => Some(k@),
        None => None,
    }
}

/// A key has 32 bytes.
pub broadcast proof fn key_has_32_bytes(k: EndpointId)
    ensures
        #[trigger] k@.len() == 32,
{
}

impl EndpointId {
    /// Every endpoint id holds a key.
    #[verifier::type_invariant]
    pub open spec fn inv(self) -> bool {
        is_key(self@)
    }

    /// The endpoint with these bytes, if they are a key.
    pub fn from_bytes(bytes: &[u8; 32]) -> (r: Option<EndpointId>)
        ensures
            match r {
                Some(k) => is_key(bytes@) && k@ == bytes@,
                None => !is_key(bytes@),
            },
    {
        if check_bytes(bytes) {
            Some(EndpointId { bytes: *bytes })
        } else {
            None
        }
    }

    /// The endpoint with these bytes, which are known to be a key.
    pub(crate) fn from_key_bytes(bytes: [u8; 32]) -> (r: EndpointId)
        requires
            is_key(bytes@),
        ensures
            r@ == bytes@,
    {
        EndpointId { bytes }
    }

    /// Reads a key from its text.
    pub fn parse(s: &str) -> (r: Result<EndpointId, InvalidKey>)
        ensures
            match r {
                Ok(k) => key_of_text(s@) == Some(k@),
                Err(InvalidKey) => key_of_text(s@) is None,
            },
            forall|b: Seq<u8>| b.len() == 32 && is_key(b) && s@ == #[trigger] hex(b) ==> r is Ok && r->Ok_0@ == b,
    {
        match parse_bytes(s) {
            Ok(bytes) => Ok(EndpointId { bytes }),
            Err(_) => Err(InvalidKey),
        }
    }

    /// The text of the key: lower-case hexadecimal. It reads back as the key.
    pub fn to_string(&self) -> (s: String)
        ensures
            s@ == hex(self@),
            key_of_text(s@) == Some(self@),
    {
        proof {
            use_type_invariant(self);
        }
        print_bytes(&self.bytes)
    }

    /// The bytes of the key.
    pub fn as_bytes(&self) -> (b: &[u8; 32])
        ensures
            b@ == self@,
    {
        &self.bytes
    }

    /// Whether two ids name one endpoint.
    pub fn same(&self, other: &EndpointId) -> (r: bool)
        ensures
            r == (self@ == other@),
    {
        let mut i: usize = 0;
        while i < 32
            invariant
                i <= 32,
                forall|j: int| 0 <= j < i ==> self.bytes@[j] == other.bytes@[j],
            decreases 32 - i,
        {
            if self.bytes[i] != other.bytes[i] {
                assert(self@[i as int] != other@[i as int]);
                return false;
            }
            i = i + 1;
        }
        assert(self@ =~= other@);
        true
    }

    /// Whether this id sorts before `other`: by its bytes, first difference first.
    pub fn before(&self, other: &EndpointId) -> (r: bool)
        ensures
            r == key_lt(self@, other@),
    {
        let mut i: usize = 0;
        while i < 32
            invariant
                i <= 32,
                forall|j: int| 0 <= j < i ==> self.bytes@[j] == other.bytes@[j],
            decreases 32 - i,
        {
            if self.bytes[i] < other.bytes[i] {
                assert(first_diff(self@, other@, i as int));
                return true;
            }
            if self.bytes[i] > other.bytes[i] {
                proof {
                    assert(first_diff(other@, self@, i as int));
                    lemma_key_lt_asym(other@, self@);
                }
                return false;
            }
            i = i + 1;
        }
        proof {
            assert(self@ =~= other@);
            lemma_key_lt_irreflexive(self@);
        }
        false
    }
}

// ------------------------------------------------------------------- order

/// `a` and `b` agree up to `i`, where `a` is smaller.
pub open spec fn first_diff(a: Seq<u8>, b: Seq<u8>, i: int) -> bool {
    &&& 0 <= i < a.len()
    &&& i < b.len()
    &&& forall|j: int| 0 <= j < i ==> a[j] == b[j]
    &&& a[i] < b[i]
}

/// The order of keys: byte by byte.
pub open spec fn key_lt(a: Seq<u8>, b: Seq<u8>) -> bool {
    exists|i: int| #[trigger] first_diff(a, b, i)
}

/// No key sorts before itself.
pub proof fn lemma_key_lt_irreflexive(a: Seq<u8>)
    ensures
        !key_lt(a, a),
{
}

/// Of two keys at most one sorts before the other.
pub proof fn lemma_key_lt_asym(a: Seq<u8>, b: Seq<u8>)
    requires
        key_lt(a, b),
    ensures
        !key_lt(b, a),
        a != b,
{
    let i = choose|i: int| #[trigger] first_diff(a, b, i);
    if key_lt(b, a) {
        let j = choose|j: int| #[trigger] first_diff(b, a, j);
        if i < j {
            assert(b[i] == a[i]);
        } else if j < i {
            assert(a[j] == b[j]);
        }
    }
}

/// The order of keys is transitive.
pub proof fn lemma_key_lt_trans(a: Seq<u8>, b: Seq<u8>, c: Seq<u8>)
    requires
        key_lt(a, b),
        key_lt(b, c),
    ensures
        key_lt(a, c),
{
    let i = choose|i: int| #[trigger] first_diff(a, b, i);
    let j = choose|j: int| #[trigger] first_diff(b, c, j);
    let k = if i < j { i } else { j };
    assert(first_diff(a, c, k));
}

/// Of two different keys one sorts before the other.
pub proof fn lemma_key_lt_total(a: Seq<u8>, b: Seq<u8>)
    requires
        a.len() == b.len(),
        a != b,
    ensures
        key_lt(a, b) || key_lt(b, a),
{
    let n = lemma_first_difference(a, b, 0);
    if a[n] < b[n] {
        assert(first_diff(a, b, n));
    } else {
        assert(first_diff(b, a, n));
    }
}

proof fn lemma_first_difference(a: Seq<u8>, b: Seq<u8>, from: int) -> (n: int)
    requires
        a.len() == b.len(),
        a != b,
        0 <= from <= a.len(),
        forall|j: int| 0 <= j < from ==> a[j] == b[j],
    ensures
        0 <= n < a.len(),
        forall|j: int| 0 <= j < n ==> a[j] == b[j],
        a[n] != b[n],
    decreases a.len() - from,
{
    if from == a.len() {
        assert(a =~= b);
        0
    } else if a[from] != b[from] {
        from
    } else {
        lemma_first_difference(a, b, from + 1)
    }
}

// ------------------------------------------------------------------- names

/// How much of a key names a peer that nothing else named. Long enough to read
/// out loud and to stay unique in any realistic peer list.
pub const SHORT_KEY: usize = 8;

/// The name of a peer that nothing else named: the start of its key's text.
pub open spec fn default_name_spec(key: Seq<u8>) -> Seq<char> {
    hex(key).take(SHORT_KEY as int)
}

/// What to call a peer when neither side passed `--as`. A truncated key is
/// ugly but stable, and `project --as` renames it.
pub fn default_name(key: &EndpointId) -> (s: String)
    ensures
        s@ == default_name_spec(key@),
        s@.len() == SHORT_KEY,
{
    broadcast use key_has_32_bytes;

    let text = key.to_string();
    let v = to_chars(text.as_str());
    assert(v@.subrange(0, 8) =~= hex(key@).take(8));
    from_chars(&v, 0, SHORT_KEY)
}

// -------------------------------------------------------------------- laws

/// Two keys with one text are one key.
pub proof fn law_key_text_is_injective(a: Seq<u8>, b: Seq<u8>)
    requires
        hex(a) == hex(b),
    ensures
        a == b,
{
    assert(hex(a).len() == 2 * a.len());
    assert(hex(b).len() == 2 * b.len());
    assert forall|i: int| 0 <= i < a.len() implies a[i] == b[i] by {
        assert((2 * i) / 2 == i && (2 * i) % 2 == 0);
        assert((2 * i + 1) / 2 == i && (2 * i + 1) % 2 == 1);
        assert(hex(a)[2 * i] == hex_digit(a[i] as int / 16));
        assert(hex(b)[2 * i] == hex_digit(b[i] as int / 16));
        assert(hex(a)[2 * i + 1] == hex_digit(a[i] as int % 16));
        assert(hex(b)[2 * i + 1] == hex_digit(b[i] as int % 16));
        lemma_hex_digit_injective(a[i] as int / 16, b[i] as int / 16);
        lemma_hex_digit_injective(a[i] as int % 16, b[i] as int % 16);
    }
    assert(a =~= b);
}

proof fn lemma_hex_digit_injective(m: int, n: int)
    requires
        0 <= m < 16,
        0 <= n < 16,
        hex_digit(m) == hex_digit(n),
    ensures
        m == n,
{
}

/// The text of a key never contains the separator of an invitation, nor any
/// other character than a lower-case hexadecimal digit.
pub proof fn law_key_text_is_hex(key: Seq<u8>, i: int)
    requires
        0 <= i < hex(key).len(),
    ensures
        '0' <= hex(key)[i] <= '9' || 'a' <= hex(key)[i] <= 'f',
{
}

}
