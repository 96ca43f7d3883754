//! The payload of a login request: two strings in `bincode`'s encoding.

use vstd::prelude::*;
use vstd::utf8::{encode_utf8, decode_utf8, encode_utf8_decode_utf8};

verus! {

/// `n` as eight little-endian bytes.
pub open spec fn u64_le_bytes(n: nat) -> Seq<u8> {
    seq![
        (n % 256) as u8,
        ((n / 256) % 256) as u8,
        ((n / 65536) % 256) as u8,
        ((n / 16777216) % 256) as u8,
        ((n / 4294967296) % 256) as u8,
        ((n / 1099511627776) % 256) as u8,
        ((n / 281474976710656) % 256) as u8,
        ((n / 72057594037927936) % 256) as u8,
    ]
}

/// The value of eight little-endian bytes.
pub open spec fn u64_le_value(s: Seq<u8>) -> nat {
    (s[0] as nat) + (s[1] as nat) * 256 + (s[2] as nat) * 65536 + (s[3] as nat) * 16777216
        + (s[4] as nat) * 4294967296 + (s[5] as nat) * 1099511627776 + (s[6] as nat)
        * 281474976710656 + (s[7] as nat) * 72057594037927936
}

/// A string as `bincode` writes it with its default options: the length of
/// its UTF-8 bytes as a little-endian 64-bit integer, then those bytes.
pub open spec fn bincode_str(s: Seq<char>) -> Seq<u8> {
    u64_le_bytes(encode_utf8(s).len()) + encode_utf8(s)
}

/// Two strings as `bincode` writes a pair (or a struct) of them.
pub open spec fn bincode_str_pair(a: Seq<char>, b: Seq<char>) -> Seq<u8> {
    bincode_str(a) + bincode_str(b)
}

/// `bytes` begin with the encoding of some pair of strings.
pub open spec fn starts_with_str_pair(bytes: Seq<u8>) -> bool {
    exists|a: Seq<char>, b: Seq<char>| #[trigger] bincode_str_pair(a, b).is_prefix_of(bytes)
}

/// Calls `bincode::serialize` on the pair `(a, b)`.  `bincode::serialize`
/// uses fixed-width little-endian integers and no size limit; a `str` is
/// written as its byte length (a `u64`) and its UTF-8 bytes, and a tuple or
/// struct as its fields in order.  Writing into a `Vec` cannot fail, so the
/// result is always there.
#[verifier::external_body]
fn bincode_serialize_str_pair(a: &String, b: &String) -> (r: Option<Vec<u8>>)
    ensures
        r is Some,
        r.unwrap()@ == bincode_str_pair(a@, b@),
{
    bincode::serialize(&(a, b)).ok()
}

/// Calls `bincode::deserialize` for a pair `(String, String)`.  With the
/// default options it reads a `u64` length and that many bytes for each
/// string, fails when the bytes run out or are not UTF-8, and ignores bytes
/// that follow; so it succeeds exactly on bytes that begin with the encoding
/// of a pair of strings, and returns that pair.
#[verifier::external_body]
fn bincode_deserialize_str_pair(bytes: &Vec<u8>) -> (r: Option<(String, String)>)
    ensures
        r is Some ==> bincode_str_pair(r.unwrap().0@, r.unwrap().1@).is_prefix_of(bytes@),
        r is None <==> !starts_with_str_pair(bytes@),
{
    bincode::deserialize::<(String, String)>(bytes.as_slice()).ok()
}

/// A login request: the account and its password.
#[derive(Debug)]
pub struct LoginReqData {
    pub account: String,
    pub pwd: String,
}

impl LoginReqData {
    /// The bytes of this request on the wire.
    pub open spec fn spec_bytes(self) -> Seq<u8> {
        bincode_str_pair(self.account@, self.pwd@)
    }
}

/// The payload that carries a login request.
pub fn encode_login_request(req: &LoginReqData) -> (r: Vec<u8>)
    ensures
        r@ == req.spec_bytes(),
{
    match bincode_serialize_str_pair(&req.account, &req.pwd) {
        Some(v) => v,
        None => Vec::new(),
    }
}

/// The login request that a payload begins with, if it begins with one.
pub fn decode_login_request(data: &Vec<u8>) -> (r: Option<LoginReqData>)
    ensures
        r matches Some(q) ==> q.spec_bytes().is_prefix_of(data@),
        r is None <==> !starts_with_str_pair(data@),
{
    match bincode_deserialize_str_pair(data) {
        Some((account, pwd)) => Some(LoginReqData { account, pwd }),
        None => None,
    }
}

/// Eight little-endian bytes give back the length that was written into them.
proof fn lemma_u64_le_roundtrip(x: u64)
    ensures
        u64_le_value(u64_le_bytes(x as nat)) == x,
        u64_le_bytes(x as nat).len() == 8,
{
    let n = x as nat;
    let b = u64_le_bytes(n);
    assert(b[0] == x % 256);
    assert(b[1] == (x / 256) % 256);
    assert(b[2] == (x / 65536) % 256);
    assert(b[3] == (x / 16777216) % 256);
    assert(b[4] == (x / 4294967296) % 256);
    assert(b[5] == (x / 1099511627776) % 256);
    assert(b[6] == (x / 281474976710656) % 256);
    assert(b[7] == (x / 72057594037927936) % 256);
    assert(x % 256 + ((x / 256) % 256) * 256 + ((x / 65536) % 256) * 65536 + ((x / 16777216)
        % 256) * 16777216 + ((x / 4294967296) % 256) * 4294967296 + ((x / 1099511627776) % 256)
        * 1099511627776 + ((x / 281474976710656) % 256) * 281474976710656 + ((x
        / 72057594037927936) % 256) * 72057594037927936 == x) by (bit_vector);
}

/// A string's encoding at the start of some bytes is the only string
/// encoding that can start there.
proof fn lemma_bincode_str_unique(a: Seq<char>, a2: Seq<char>, x: Seq<u8>)
    requires
        encode_utf8(a).len() <= u64::MAX,
        encode_utf8(a2).len() <= u64::MAX,
        bincode_str(a).is_prefix_of(x),
        bincode_str(a2).is_prefix_of(x),
    ensures
        a2 == a,
        bincode_str(a2) == bincode_str(a),
{
    let u = encode_utf8(a);
    let u2 = encode_utf8(a2);
    lemma_u64_le_roundtrip(u.len() as u64);
    lemma_u64_le_roundtrip(u2.len() as u64);
    let s1 = bincode_str(a);
    let s2 = bincode_str(a2);
    assert forall|j: int| 0 <= j < 8 implies #[trigger] u64_le_bytes(u.len())[j] == x[j] by {
        assert(s1[j] == u64_le_bytes(u.len())[j]);
    }
    assert forall|j: int| 0 <= j < 8 implies #[trigger] u64_le_bytes(u2.len())[j] == x[j] by {
        assert(s2[j] == u64_le_bytes(u2.len())[j]);
    }
    assert(u64_le_bytes(u.len()) =~= x.subrange(0, 8));
    assert(u64_le_bytes(u2.len()) =~= x.subrange(0, 8));
    assert(u.len() == u2.len());
    assert forall|j: int| 0 <= j < u.len() implies #[trigger] u[j] == x[8 + j] by {
        assert(s1[8 + j] == u[j]);
    }
    assert forall|j: int| 0 <= j < u2.len() implies #[trigger] u2[j] == x[8 + j] by {
        assert(s2[8 + j] == u2[j]);
    }
    assert(u =~= u2);
    encode_utf8_decode_utf8(a);
    encode_utf8_decode_utf8(a2);
}

/// Law: a login request read back from the bytes that were written for it,
/// whatever follows them, is that request; and such bytes are always read.
pub proof fn login_request_roundtrip(q: LoginReqData, q2: LoginReqData, rest: Seq<u8>)
    requires
        encode_utf8(q.account@).len() <= u64::MAX,
        encode_utf8(q.pwd@).len() <= u64::MAX,
        encode_utf8(q2.account@).len() <= u64::MAX,
        encode_utf8(q2.pwd@).len() <= u64::MAX,
        q2.spec_bytes().is_prefix_of(q.spec_bytes() + rest),
    ensures
        q2.account@ == q.account@,
        q2.pwd@ == q.pwd@,
{
    let x = q.spec_bytes() + rest;
    let a = q.account@;
    let b = q.pwd@;
    let a2 = q2.account@;
    let b2 = q2.pwd@;
    assert(bincode_str(a).is_prefix_of(x)) by {
        assert forall|i: int| 0 <= i < bincode_str(a).len() implies #[trigger] bincode_str(a)[i] == x[i] by {
            assert(x[i] == (bincode_str(a) + bincode_str(b))[i]);
        }
    }
    assert(bincode_str(a2).is_prefix_of(x)) by {
        assert forall|i: int| 0 <= i < bincode_str(a2).len() implies #[trigger] bincode_str(a2)[i] == x[i] by {
            assert(x[i] == q2.spec_bytes()[i]);
        }
    }
    lemma_bincode_str_unique(a, a2, x);
    let k = bincode_str(a).len() as int;
    let y = x.subrange(k, x.len() as int);
    assert(bincode_str(b).is_prefix_of(y)) by {
        assert forall|i: int| 0 <= i < bincode_str(b).len() implies #[trigger] bincode_str(b)[i] == y[i] by {
            assert(y[i] == x[k + i]);
            assert(x[k + i] == (bincode_str(a) + bincode_str(b))[k + i]);
        }
    }
    assert(bincode_str(b2).is_prefix_of(y)) by {
        assert forall|i: int| 0 <= i < bincode_str(b2).len() implies #[trigger] bincode_str(b2)[i] == y[i] by {
            assert(y[i] == x[k + i]);
            assert(x[k + i] == q2.spec_bytes()[k + i]);
        }
    }
    lemma_bincode_str_unique(b, b2, y);
}

/// The bytes written for a login request begin with the encoding of a pair of strings.
pub proof fn login_request_is_readable(q: LoginReqData, rest: Seq<u8>)
    ensures
        starts_with_str_pair(q.spec_bytes() + rest),
{
    let x = q.spec_bytes() + rest;
    assert(bincode_str_pair(q.account@, q.pwd@).is_prefix_of(x)) by {
        assert forall|i: int| 0 <= i < q.spec_bytes().len() implies #[trigger] q.spec_bytes()[i] == x[i] by {
        }
    }
}

/// The value of the eight little-endian bytes of `x` from position `at`.
proof fn lemma_le_field(x: Seq<u8>, at: int, n: nat)
    requires
        n <= u64::MAX,
        0 <= at,
        at + 8 <= x.len(),
        x.subrange(at, at + 8) == u64_le_bytes(n),
    ensures
        (x[at] as nat) + (x[at + 1] as nat) * 256 + (x[at + 2] as nat) * 65536 + (x[at + 3] as nat)
            * 16777216 + (x[at + 4] as nat) * 4294967296 + (x[at + 5] as nat) * 1099511627776 + (
        x[at + 6] as nat) * 281474976710656 + (x[at + 7] as nat) * 72057594037927936 == n,
{
    lemma_u64_le_roundtrip(n as u64);
    let b = u64_le_bytes(n);
    assert(x[at] == b[0]);
    assert(x[at + 1] == b[1]);
    assert(x[at + 2] == b[2]);
    assert(x[at + 3] == b[3]);
    assert(x[at + 4] == b[4]);
    assert(x[at + 5] == b[5]);
    assert(x[at + 6] == b[6]);
    assert(x[at + 7] == b[7]);
}

/// Law: a login request travels as `bincode` writes the pair (account,
/// password): the byte length of the account's UTF-8 form as eight
/// little-endian bytes, those UTF-8 bytes, then the same two parts for the
/// password, and nothing else.
pub proof fn login_request_layout(q: LoginReqData)
    requires
        encode_utf8(q.account@).len() <= u64::MAX,
        encode_utf8(q.pwd@).len() <= u64::MAX,
    ensures
        ({
            let a = encode_utf8(q.account@);
            let p = encode_utf8(q.pwd@);
            let x = q.spec_bytes();
            let k = 8 + a.len() as int;
            &&& x.len() == 16 + a.len() + p.len()
            &&& (x[0] as nat) + (x[1] as nat) * 256 + (x[2] as nat) * 65536 + (x[3] as nat) * 16777216
                + (x[4] as nat) * 4294967296 + (x[5] as nat) * 1099511627776 + (x[6] as nat)
                * 281474976710656 + (x[7] as nat) * 72057594037927936 == a.len()
            &&& x.subrange(8, k) == a
            &&& (x[k] as nat) + (x[k + 1] as nat) * 256 + (x[k + 2] as nat) * 65536 + (x[k
                + 3] as nat) * 16777216 + (x[k + 4] as nat) * 4294967296 + (x[k + 5] as nat)
                * 1099511627776 + (x[k + 6] as nat) * 281474976710656 + (x[k + 7] as nat)
                * 72057594037927936 == p.len()
            &&& x.subrange(k + 8, x.len() as int) == p
        }),
{
    let a = encode_utf8(q.account@);
    let p = encode_utf8(q.pwd@);
    let x = q.spec_bytes();
    let k = 8 + a.len() as int;
    lemma_u64_le_roundtrip(a.len() as u64);
    lemma_u64_le_roundtrip(p.len() as u64);
    assert(x.subrange(0, 8) =~= u64_le_bytes(a.len()));
    assert(x.subrange(8, k) =~= a);
    assert(x.subrange(k, k + 8) =~= u64_le_bytes(p.len()));
    assert(x.subrange(k + 8, x.len() as int) =~= p);
    lemma_le_field(x, 0, a.len());
    lemma_le_field(x, k, p.len());
}

} // verus!
