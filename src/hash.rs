//! Digests, tagged commitments and the little-endian byte encoding that
//! commitments are computed over.
use vstd::prelude::*;
use vstd::string::StrSliceExecFns;
use vstd::string::StringSliceAdditionalSpecFns;

verus! {

broadcast use vstd::array::group_array_axioms;

/// A 256-bit digest: node, bundle, transaction and consignment ids and the
/// concealed forms of seals and state.
#[derive(Clone, Copy, Debug)]
pub struct Digest {
    pub bytes: [u8; 32],
}

impl PartialEq for Digest {
    fn eq(&self, o: &Digest) -> (r: bool) {
        digest_eq(self, o)
    }
}

impl vstd::std_specs::cmp::PartialEqSpecImpl for Digest {
    open spec fn obeys_eq_spec() -> bool {
        true
    }

    open spec fn eq_spec(&self, o: &Digest) -> bool {
        *self == *o
    }
}

impl Eq for Digest {}

/// Compares two digests byte by byte.
pub fn digest_eq(a: &Digest, b: &Digest) -> (r: bool)
    ensures
        r == (*a == *b),
        r == (a.bytes@ == b.bytes@),
{
    let mut i: usize = 0;
    while i < 32
        invariant
            i <= 32,
            forall|j: int| 0 <= j < i ==> a.bytes@[j] == b.bytes@[j],
        decreases 32 - i,
    {
        if a.bytes[i] != b.bytes[i] {
            assert(a.bytes@[i as int] != b.bytes@[i as int]);
            return false;
        }
        i = i + 1;
    }
    assert(a.bytes@ =~= b.bytes@);
    assert(a.bytes == b.bytes);
    true
}

/// Lexicographic byte order: `a` comes before `b`.
pub open spec fn lex_lt(a: Seq<u8>, b: Seq<u8>) -> bool {
    exists|k: int|
        0 <= k < a.len() && k < b.len() && a[k] < b[k] && forall|j: int| 0 <= j < k ==> #[trigger] a[j] == b[j]
}

/// The order is strict: it never holds both ways, nor of equal strings.
pub proof fn lemma_lex_asym(a: Seq<u8>, b: Seq<u8>)
    requires
        lex_lt(a, b),
    ensures
        !lex_lt(b, a),
        a != b,
{
    let k1 = choose|k: int| 0 <= k < a.len() && k < b.len() && a[k] < b[k] && forall|j: int| 0 <= j < k ==> #[trigger] a[j] == b[j];
    if lex_lt(b, a) {
        let k2 = choose|k: int| 0 <= k < b.len() && k < a.len() && b[k] < a[k] && forall|j: int| 0 <= j < k ==> #[trigger] b[j] == a[j];
        if k1 < k2 {
            assert(b[k1] == a[k1]);
        } else if k2 < k1 {
            assert(a[k2] == b[k2]);
        }
    }
    if a == b {
        assert(a[k1] == b[k1]);
    }
}

pub proof fn lemma_lex_trans(a: Seq<u8>, b: Seq<u8>, c: Seq<u8>)
    requires
        lex_lt(a, b),
        lex_lt(b, c),
    ensures
        lex_lt(a, c),
{
    let k1 = choose|k: int| 0 <= k < a.len() && k < b.len() && a[k] < b[k] && forall|j: int| 0 <= j < k ==> #[trigger] a[j] == b[j];
    let k2 = choose|k: int| 0 <= k < b.len() && k < c.len() && b[k] < c[k] && forall|j: int| 0 <= j < k ==> #[trigger] b[j] == c[j];
    let k = if k1 < k2 { k1 } else { k2 };
    assert forall|j: int| 0 <= j < k implies #[trigger] a[j] == c[j] by {
        assert(a[j] == b[j] && b[j] == c[j]);
    }
    assert(a[k] < c[k]);
}

/// Two distinct strings of one length are ordered one way or the other.
pub proof fn lemma_lex_total(a: Seq<u8>, b: Seq<u8>)
    requires
        a.len() == b.len(),
        a != b,
    ensures
        lex_lt(a, b) || lex_lt(b, a),
{
    lemma_lex_total_from(a, b, 0);
}

proof fn lemma_lex_total_from(a: Seq<u8>, b: Seq<u8>, i: int)
    requires
        a.len() == b.len(),
        a != b,
        0 <= i <= a.len(),
        forall|j: int| 0 <= j < i ==> #[trigger] a[j] == b[j],
    ensures
        lex_lt(a, b) || lex_lt(b, a),
    decreases a.len() - i,
{
    if i == a.len() {
        assert(a =~= b);
    } else if a[i] == b[i] {
        lemma_lex_total_from(a, b, i + 1);
    } else if a[i] < b[i] {
        assert(lex_lt(a, b));
    } else {
        assert(forall|j: int| 0 <= j < i ==> #[trigger] b[j] == a[j]);
        assert(lex_lt(b, a));
    }
}

/// Whether `a` comes before `b` in byte order.
pub fn digest_lt(a: &Digest, b: &Digest) -> (r: bool)
    ensures
        r == lex_lt(a.bytes@, b.bytes@),
{
    let mut i: usize = 0;
    while i < 32
        invariant
            i <= 32,
            forall|j: int| 0 <= j < i ==> #[trigger] a.bytes@[j] == b.bytes@[j],
        decreases 32 - i,
    {
        if a.bytes[i] < b.bytes[i] {
            assert(lex_lt(a.bytes@, b.bytes@));
            return true;
        }
        if a.bytes[i] > b.bytes[i] {
            assert(forall|j: int| 0 <= j < i ==> #[trigger] b.bytes@[j] == a.bytes@[j]);
            assert(lex_lt(b.bytes@, a.bytes@));
            proof {
                lemma_lex_asym(b.bytes@, a.bytes@);
            }
            return false;
        }
        i = i + 1;
    }
    assert(a.bytes@ =~= b.bytes@);
    proof {
        if lex_lt(a.bytes@, b.bytes@) {
            lemma_lex_asym(a.bytes@, b.bytes@);
        }
    }
    false
}

/// Name of the SHA-256 digest of a byte string.
pub uninterp spec fn sha256_of(data: Seq<u8>) -> Seq<u8>;

/// Relies on bitcoin_hashes' `sha256::Hash::hash`: the SHA-256 digest of the
/// given bytes, which depends on those bytes alone.
#[verifier::external_body]
fn sha256(data: &Vec<u8>) -> (r: [u8; 32])
    ensures
        r@ == sha256_of(data@),
{
    let h = <bitcoin::hashes::sha256::Hash as bitcoin::hashes::Hash>::hash(data.as_slice());
    <bitcoin::hashes::sha256::Hash as bitcoin::hashes::Hash>::to_byte_array(h)
}

/// Tagged commitment: the tag is hashed once and the result, taken twice,
/// prefixes the message, so digests under distinct tags never coincide by
/// construction of the input.
pub open spec fn tagged_hash_spec(tag: Seq<u8>, msg: Seq<u8>) -> Seq<u8> {
    sha256_of(sha256_of(tag) + sha256_of(tag) + msg)
}

/// Computes the tagged commitment of `msg` under the domain `tag`.
pub fn tagged_hash(tag: &str, msg: &Vec<u8>) -> (r: Digest)
    ensures
        r.bytes@ == tagged_hash_spec(tag.spec_bytes(), msg@),
{
    let tag_bytes = tag.as_bytes_vec();
    let tag_digest = sha256(&tag_bytes);
    let mut buf: Vec<u8> = Vec::new();
    push_raw(&mut buf, &tag_digest);
    push_raw(&mut buf, &tag_digest);
    let mut i: usize = 0;
    while i < msg.len()
        invariant
            i <= msg@.len(),
            buf@ == sha256_of(tag.spec_bytes()) + sha256_of(tag.spec_bytes()) + msg@.subrange(0, i as int),
        decreases msg@.len() - i,
    {
        buf.push(msg[i]);
        i = i + 1;
        assert(msg@.subrange(0, i as int) =~= msg@.subrange(0, i - 1) + seq![msg@[i - 1]]);
    }
    assert(msg@.subrange(0, msg@.len() as int) =~= msg@);
    Digest { bytes: sha256(&buf) }
}

/// Appends the 32 bytes of a digest array.
fn push_raw(out: &mut Vec<u8>, d: &[u8; 32])
    ensures
        final(out)@ == old(out)@ + d@,
{
    let ghost start = out@;
    let mut i: usize = 0;
    while i < 32
        invariant
            i <= 32,
            out@ == start + d@.subrange(0, i as int),
        decreases 32 - i,
    {
        out.push(d[i]);
        i = i + 1;
        assert(d@.subrange(0, i as int) =~= d@.subrange(0, i - 1) + seq![d@[i - 1]]);
    }
    assert(d@.subrange(0, 32) =~= d@);
}

/// Little-endian bytes of a 16-bit integer.
pub open spec fn le_u16(x: u16) -> Seq<u8> {
    seq![(x & 0xff) as u8, ((x >> 8u16) & 0xff) as u8]
}

/// Little-endian bytes of a 32-bit integer.
pub open spec fn le_u32(x: u32) -> Seq<u8> {
    seq![
        (x & 0xff) as u8,
        ((x >> 8u32) & 0xff) as u8,
        ((x >> 16u32) & 0xff) as u8,
        ((x >> 24u32) & 0xff) as u8,
    ]
}

/// Little-endian bytes of a 64-bit integer.
pub open spec fn le_u64(x: u64) -> Seq<u8> {
    seq![
        (x & 0xff) as u8,
        ((x >> 8u64) & 0xff) as u8,
        ((x >> 16u64) & 0xff) as u8,
        ((x >> 24u64) & 0xff) as u8,
        ((x >> 32u64) & 0xff) as u8,
        ((x >> 40u64) & 0xff) as u8,
        ((x >> 48u64) & 0xff) as u8,
        ((x >> 56u64) & 0xff) as u8,
    ]
}

/// A byte string prefixed with its length.
pub open spec fn enc_bytes(data: Seq<u8>) -> Seq<u8> {
    le_u64(data.len() as u64) + data
}

pub fn push_u8(out: &mut Vec<u8>, x: u8)
    ensures
        final(out)@ == old(out)@ + seq![x],
{
    out.push(x);
}

pub fn push_u16(out: &mut Vec<u8>, x: u16)
    ensures
        final(out)@ == old(out)@ + le_u16(x),
{
    out.push((x & 0xff) as u8);
    out.push(((x >> 8u16) & 0xff) as u8);
}

pub fn push_u32(out: &mut Vec<u8>, x: u32)
    ensures
        final(out)@ == old(out)@ + le_u32(x),
{
    out.push((x & 0xff) as u8);
    out.push(((x >> 8u32) & 0xff) as u8);
    out.push(((x >> 16u32) & 0xff) as u8);
    out.push(((x >> 24u32) & 0xff) as u8);
}

pub fn push_u64(out: &mut Vec<u8>, x: u64)
    ensures
        final(out)@ == old(out)@ + le_u64(x),
{
    out.push((x & 0xff) as u8);
    out.push(((x >> 8u64) & 0xff) as u8);
    out.push(((x >> 16u64) & 0xff) as u8);
    out.push(((x >> 24u64) & 0xff) as u8);
    out.push(((x >> 32u64) & 0xff) as u8);
    out.push(((x >> 40u64) & 0xff) as u8);
    out.push(((x >> 48u64) & 0xff) as u8);
    out.push(((x >> 56u64) & 0xff) as u8);
}

pub fn push_digest(out: &mut Vec<u8>, d: &Digest)
    ensures
        final(out)@ == old(out)@ + d.bytes@,
{
    push_raw(out, &d.bytes);
}

/// Appends a length-prefixed byte string.
pub fn push_bytes(out: &mut Vec<u8>, data: &Vec<u8>)
    ensures
        final(out)@ == old(out)@ + enc_bytes(data@),
{
    push_u64(out, data.len() as u64);
    let ghost start = out@;
    let mut i: usize = 0;
    while i < data.len()
        invariant
            i <= data@.len(),
            out@ == start + data@.subrange(0, i as int),
        decreases data@.len() - i,
    {
        out.push(data[i]);
        i = i + 1;
        assert(data@.subrange(0, i as int) =~= data@.subrange(0, i - 1) + seq![data@[i - 1]]);
    }
    assert(data@.subrange(0, data@.len() as int) =~= data@);
    assert(old(out)@ + enc_bytes(data@) =~= start + data@);
}

/// Concatenation of the encodings of a sequence's items.
pub open spec fn enc_seq<T>(s: Seq<T>, f: spec_fn(T) -> Seq<u8>) -> Seq<u8>
    decreases s.len(),
{
    if s.len() == 0 {
        seq![]
    } else {
        enc_seq(s.drop_last(), f) + f(s.last())
    }
}

pub proof fn lemma_enc_seq_step<T>(s: Seq<T>, i: int, f: spec_fn(T) -> Seq<u8>)
    requires
        0 <= i < s.len(),
    ensures
        enc_seq(s.subrange(0, i + 1), f) == enc_seq(s.subrange(0, i), f) + f(s[i]),
{
    assert(s.subrange(0, i + 1).drop_last() =~= s.subrange(0, i));
}

/// Two sequences whose items encode alike, pairwise, encode alike.
pub proof fn lemma_enc_seq_congruent<T>(s1: Seq<T>, s2: Seq<T>, f: spec_fn(T) -> Seq<u8>)
    requires
        s1.len() == s2.len(),
        forall|i: int| 0 <= i < s1.len() ==> f(#[trigger] s1[i]) == f(s2[i]),
    ensures
        enc_seq(s1, f) == enc_seq(s2, f),
    decreases s1.len(),
{
    if s1.len() > 0 {
        lemma_enc_seq_congruent(s1.drop_last(), s2.drop_last(), f);
        assert(f(s1[s1.len() - 1]) == f(s2[s2.len() - 1]));
    }
}

/// Sum of a count over a sequence's items.
pub open spec fn sum_seq<T>(s: Seq<T>, f: spec_fn(T) -> nat) -> nat
    decreases s.len(),
{
    if s.len() == 0 {
        0
    } else {
        sum_seq(s.drop_last(), f) + f(s.last())
    }
}

pub proof fn lemma_sum_seq_step<T>(s: Seq<T>, i: int, f: spec_fn(T) -> nat)
    requires
        0 <= i < s.len(),
    ensures
        sum_seq(s.subrange(0, i + 1), f) == sum_seq(s.subrange(0, i), f) + f(s[i]),
{
    assert(s.subrange(0, i + 1).drop_last() =~= s.subrange(0, i));
}

pub proof fn lemma_sum_seq_zero<T>(s: Seq<T>, f: spec_fn(T) -> nat)
    requires
        forall|i: int| 0 <= i < s.len() ==> f(#[trigger] s[i]) == 0,
    ensures
        sum_seq(s, f) == 0,
    decreases s.len(),
{
    if s.len() > 0 {
        lemma_sum_seq_zero(s.drop_last(), f);
        assert(f(s[s.len() - 1]) == 0);
    }
}

pub proof fn lemma_sum_prefix_le<T>(s: Seq<T>, i: int, f: spec_fn(T) -> nat)
    requires
        0 <= i <= s.len(),
    ensures
        sum_seq(s.subrange(0, i), f) <= sum_seq(s, f),
    decreases s.len() - i,
{
    if i < s.len() {
        lemma_sum_prefix_le(s, i + 1, f);
        lemma_sum_seq_step(s, i, f);
    } else {
        assert(s.subrange(0, i) =~= s);
    }
}

/// Two sequences whose items count alike, pairwise, sum alike.
pub proof fn lemma_sum_seq_congruent<T, U>(s1: Seq<T>, s2: Seq<U>, f: spec_fn(T) -> nat, g: spec_fn(U) -> nat)
    requires
        s1.len() == s2.len(),
        forall|i: int| 0 <= i < s1.len() ==> f(#[trigger] s1[i]) == g(s2[i]),
    ensures
        sum_seq(s1, f) == sum_seq(s2, g),
    decreases s1.len(),
{
    if s1.len() > 0 {
        lemma_sum_seq_congruent(s1.drop_last(), s2.drop_last(), f, g);
        assert(f(s1[s1.len() - 1]) == g(s2[s2.len() - 1]));
    }
}

pub proof fn lemma_enc_seq_push<T>(s: Seq<T>, x: T, f: spec_fn(T) -> Seq<u8>)
    ensures
        enc_seq(s.push(x), f) == enc_seq(s, f) + f(x),
{
    assert(s.push(x).drop_last() =~= s);
}

} // verus!
