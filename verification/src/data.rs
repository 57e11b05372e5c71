//! Basic identifiers: 32-byte hashes / UUIDs, their ordering, and hex encoding.

use vstd::prelude::*;

verus! {

/// A 32-byte identifier. Content hashes (Blake2b-256) and version UUIDs
/// both have this shape.
#[derive(Clone, Copy, Debug)]
pub struct FixedBytes32 {
    pub bytes: [u8; 32],
}

/// A version / upload / bucket identifier.
pub type Uuid = FixedBytes32;

/// A content hash of a data block.
pub type BlockHash = FixedBytes32;

impl View for FixedBytes32 {
    type V = Seq<u8>;

    open spec fn view(&self) -> Seq<u8> {
        self.bytes@
    }
}

impl FixedBytes32 {
    pub fn from_bytes(bytes: [u8; 32]) -> (r: FixedBytes32)
        ensures
            r@ == bytes@,
    {
        FixedBytes32 { bytes }
    }
}

/// Relies on <[u8]>::copy_from_slice to copy 32 bytes into a fixed array.
#[verifier::external_body]
pub(crate) fn fb32_from_vec(v: &Vec<u8>) -> (r: FixedBytes32)
    requires
        v@.len() == 32,
    ensures
        r@ == v@,
{
    let mut bytes = [0u8; 32];
    bytes.copy_from_slice(&v[..]);
    FixedBytes32 { bytes }
}

/// Strict lexicographic order on byte strings.
pub open spec fn bytes_lt(a: Seq<u8>, b: Seq<u8>) -> bool
    decreases a.len(),
{
    if b.len() == 0 {
        false
    } else if a.len() == 0 {
        true
    } else if a[0] != b[0] {
        a[0] < b[0]
    } else {
        bytes_lt(a.skip(1), b.skip(1))
    }
}

pub proof fn lemma_bytes_lt_total(a: Seq<u8>, b: Seq<u8>)
    ensures
        bytes_lt(a, b) || bytes_lt(b, a) || a =~= b,
        bytes_lt(a, b) ==> !bytes_lt(b, a),
        bytes_lt(a, b) ==> !(a =~= b),
    decreases a.len(),
{
    if a.len() > 0 && b.len() > 0 {
        lemma_bytes_lt_total(a.skip(1), b.skip(1));
        if a.skip(1) =~= b.skip(1) && a[0] == b[0] {
            assert forall|j: int| 0 <= j < a.len() implies a[j] == b[j] by {
                if j > 0 {
                    assert(a.skip(1)[j - 1] == b.skip(1)[j - 1]);
                }
            };
            assert(a =~= b);
        }
    }
}

pub proof fn lemma_bytes_lt_irrefl(a: Seq<u8>)
    ensures
        !bytes_lt(a, a),
    decreases a.len(),
{
    if a.len() > 0 {
        lemma_bytes_lt_irrefl(a.skip(1));
    }
}

pub proof fn lemma_bytes_lt_trans(a: Seq<u8>, b: Seq<u8>, c: Seq<u8>)
    requires
        bytes_lt(a, b),
        bytes_lt(b, c),
    ensures
        bytes_lt(a, c),
    decreases a.len(),
{
    if a.len() > 0 && b.len() > 0 && c.len() > 0 {
        if a[0] == b[0] && b[0] == c[0] {
            lemma_bytes_lt_trans(a.skip(1), b.skip(1), c.skip(1));
        }
    }
}

/// Helper for the comparison loop: if the first `i` bytes agree and the
/// bytes at `i` differ, the order is decided at `i`.
proof fn lemma_bytes_lt_from_prefix(a: Seq<u8>, b: Seq<u8>, i: int)
    requires
        a.len() == b.len(),
        0 <= i < a.len(),
        forall|j: int| 0 <= j < i ==> a[j] == b[j],
        a[i] < b[i],
    ensures
        bytes_lt(a, b),
    decreases i,
{
    if i > 0 {
        lemma_bytes_lt_from_prefix(a.skip(1), b.skip(1), i - 1);
    }
}

/// Three-way comparison of two 32-byte identifiers, in lexicographic order.
pub fn fb32_cmp(a: &FixedBytes32, b: &FixedBytes32) -> (r: i8)
    ensures
        -1 <= r <= 1,
        (r == 0) <==> (a@ =~= b@),
        (r == -1) <==> bytes_lt(a@, b@),
        (r == 1) <==> bytes_lt(b@, a@),
{
    let mut i: usize = 0;
    while i < 32
        invariant
            0 <= i <= 32,
            forall|j: int| 0 <= j < i ==> a.bytes@[j] == b.bytes@[j],
        decreases 32 - i,
    {
        if a.bytes[i] < b.bytes[i] {
            proof {
                lemma_bytes_lt_from_prefix(a@, b@, i as int);
                lemma_bytes_lt_total(a@, b@);
            }
            return -1;
        }
        if a.bytes[i] > b.bytes[i] {
            proof {
                lemma_bytes_lt_from_prefix(b@, a@, i as int);
                lemma_bytes_lt_total(b@, a@);
            }
            return 1;
        }
        i = i + 1;
    }
    proof {
        assert(a@ =~= b@);
        lemma_bytes_lt_total(a@, b@);
    }
    0
}

/// Equality test on 32-byte identifiers.
pub fn fb32_eq(a: &FixedBytes32, b: &FixedBytes32) -> (r: bool)
    ensures
        r <==> (a@ =~= b@),
{
    fb32_cmp(a, b) == 0
}

/// Three-way lexicographic comparison of two byte strings; a strict
/// prefix sorts before the longer string.
pub fn bytes_cmp(a: &[u8], b: &[u8]) -> (r: i8)
    ensures
        -1 <= r <= 1,
        (r == 0) <==> (a@ =~= b@),
        (r == -1) <==> bytes_lt(a@, b@),
        (r == 1) <==> bytes_lt(b@, a@),
{
    let n = if a.len() < b.len() {
        a.len()
    } else {
        b.len()
    };
    let mut i: usize = 0;
    while i < n
        invariant
            0 <= i <= n,
            n <= a@.len() && n <= b@.len(),
            n == a@.len() || n == b@.len(),
            forall|j: int| 0 <= j < i ==> a@[j] == b@[j],
        decreases n - i,
    {
        if a[i] < b[i] {
            proof {
                lemma_bytes_lt_from_common_prefix(a@, b@, i as int);
                lemma_bytes_lt_total(a@, b@);
            }
            return -1;
        }
        if a[i] > b[i] {
            proof {
                lemma_bytes_lt_from_common_prefix(b@, a@, i as int);
                lemma_bytes_lt_total(b@, a@);
            }
            return 1;
        }
        i = i + 1;
    }
    proof {
        lemma_bytes_lt_prefix_decides(a@, b@, n as int);
        lemma_bytes_lt_total(a@, b@);
    }
    if a.len() == b.len() {
        0
    } else if a.len() < b.len() {
        -1
    } else {
        1
    }
}

/// If the first `i` bytes agree and the bytes at `i` differ, the order is
/// decided at `i`, whatever the lengths.
proof fn lemma_bytes_lt_from_common_prefix(a: Seq<u8>, b: Seq<u8>, i: int)
    requires
        0 <= i < a.len(),
        i < b.len(),
        forall|j: int| 0 <= j < i ==> a[j] == b[j],
        a[i] < b[i],
    ensures
        bytes_lt(a, b),
    decreases i,
{
    if i > 0 {
        lemma_bytes_lt_from_common_prefix(a.skip(1), b.skip(1), i - 1);
    }
}

/// When the first `n` bytes agree and `n` exhausts one side, the shorter
/// side sorts first.
proof fn lemma_bytes_lt_prefix_decides(a: Seq<u8>, b: Seq<u8>, n: int)
    requires
        0 <= n,
        n <= a.len() && n <= b.len(),
        n == a.len() || n == b.len(),
        forall|j: int| 0 <= j < n ==> a[j] == b[j],
    ensures
        a.len() == b.len() ==> a =~= b,
        a.len() < b.len() ==> bytes_lt(a, b),
        b.len() < a.len() ==> bytes_lt(b, a),
    decreases n,
{
    if n > 0 {
        lemma_bytes_lt_prefix_decides(a.skip(1), b.skip(1), n - 1);
        if a.len() == b.len() {
            assert forall|j: int| 0 <= j < a.len() implies a[j] == b[j] by {
                if j > 0 {
                    assert(a.skip(1)[j - 1] == b.skip(1)[j - 1]);
                }
            };
        }
    }
}

/// The hex digit (lower case) for a value below 16.
pub open spec fn hex_digit(n: u8) -> char {
    if n < 10 {
        (48 + n) as char
    } else {
        (87 + n) as char
    }
}

/// Lower-case hex encoding of a byte string: two digits per byte.
pub open spec fn hex_of(bytes: Seq<u8>) -> Seq<char> {
    Seq::new(
        2 * bytes.len(),
        |i: int|
            if i % 2 == 0 {
                hex_digit(bytes[i / 2] / 16)
            } else {
                hex_digit(bytes[i / 2] % 16)
            },
    )
}

/// Whether a character is a hex digit (either case).
pub open spec fn is_hex_char(c: char) -> bool {
    ('0' <= c && c <= '9') || ('a' <= c && c <= 'f') || ('A' <= c && c <= 'F')
}

/// A string is valid hex input iff its length is even and every character
/// is a hex digit.
pub open spec fn is_hex_string(s: Seq<char>) -> bool {
    s.len() % 2 == 0 && forall|i: int| 0 <= i < s.len() ==> is_hex_char(#[trigger] s[i])
}

/// The same string with `A`-`F` folded to lower case; hex decoding reads
/// both cases as one value.
pub open spec fn lower_hex_char(c: char) -> char {
    if 'A' <= c && c <= 'F' {
        ((c as int) + 32) as char
    } else {
        c
    }
}

pub open spec fn lower_hex_of(s: Seq<char>) -> Seq<char> {
    Seq::new(s.len(), |i: int| lower_hex_char(s[i]))
}

/// Hex encodings are already lower case: folding changes nothing, and
/// every character is a hex digit.
pub proof fn lemma_hex_of_lowercase(bytes: Seq<u8>)
    ensures
        is_hex_string(hex_of(bytes)),
        lower_hex_of(hex_of(bytes)) =~= hex_of(bytes),
{
    assert forall|i: int| 0 <= i < hex_of(bytes).len() implies is_hex_char(
        #[trigger] hex_of(bytes)[i],
    ) && lower_hex_char(hex_of(bytes)[i]) == hex_of(bytes)[i] by {
        let n = if i % 2 == 0 {
            bytes[i / 2] / 16
        } else {
            bytes[i / 2] % 16
        };
        assert(n < 16);
        assert(hex_of(bytes)[i] == hex_digit(n));
    };
}

proof fn lemma_hex_digit_injective(x: u8, y: u8)
    requires
        x < 16,
        y < 16,
        hex_digit(x) == hex_digit(y),
    ensures
        x == y,
{
    assert(hex_digit(x) as int == if x < 10 {
        48 + x
    } else {
        87 + x
    });
    assert(hex_digit(y) as int == if y < 10 {
        48 + y
    } else {
        87 + y
    });
}

/// Hex encoding is injective: equal encodings come from equal bytes.
pub proof fn lemma_hex_of_injective(a: Seq<u8>, b: Seq<u8>)
    requires
        hex_of(a) == hex_of(b),
    ensures
        a =~= b,
{
    assert(hex_of(a).len() == 2 * a.len());
    assert(hex_of(b).len() == 2 * b.len());
    assert(a.len() == b.len());
    assert forall|i: int| 0 <= i < a.len() implies a[i] == b[i] by {
        assert(0 <= 2 * i && 2 * i + 1 < hex_of(a).len());
        assert((2 * i) % 2 == 0 && (2 * i) / 2 == i);
        assert((2 * i + 1) % 2 == 1 && (2 * i + 1) / 2 == i);
        assert(hex_of(a)[2 * i] == hex_digit(a[i] / 16));
        assert(hex_of(b)[2 * i] == hex_digit(b[i] / 16));
        assert(hex_of(a)[2 * i + 1] == hex_digit(a[i] % 16));
        assert(hex_of(b)[2 * i + 1] == hex_digit(b[i] % 16));
        lemma_hex_digit_injective(a[i] / 16, b[i] / 16);
        lemma_hex_digit_injective(a[i] % 16, b[i] % 16);
    };
}

/// Relies on hex::encode: lower-case hex, two digits for each byte, in order.
#[verifier::external_body]
pub fn hex_encode(data: &[u8]) -> (r: String)
    ensures
        r@ == hex_of(data@),
{
    hex::encode(data)
}

/// Relies on hex::decode: succeeds exactly on even-length strings of hex
/// digits (either case), and returns the bytes those digits spell.
#[verifier::external_body]
pub fn hex_decode(data: &str) -> (r: Option<Vec<u8>>)
    ensures
        r is Some <==> is_hex_string(data@),
        r matches Some(v) ==> v@.len() == data@.len() / 2,
        r matches Some(v) ==> hex_of(v@) == lower_hex_of(data@),
    {
    match hex::decode(data) {
        Ok(v) => Some(v),
        Err(_) => None,
    }
}

} // verus!
