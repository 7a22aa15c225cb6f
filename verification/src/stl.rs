//! The byte layout of a binary STL file.
//!
//! A file is an 80-byte header, the number of triangles as a little-endian
//! `u32`, then 50 bytes per triangle: its normal and its three corners, each
//! as three little-endian `f32`, and two zero bytes. The floating-point
//! values arrive here as their bit patterns.
use vstd::prelude::*;
use vstd::string::StringSliceAdditionalSpecFns;

verus! {

/// One triangle: the bits of the `f32` coordinates of its normal and of its
/// three corners.
#[derive(Clone, Copy, Debug)]
pub struct Facet {
    pub normal: [u32; 3],
    pub a: [u32; 3],
    pub b: [u32; 3],
    pub c: [u32; 3],
}

impl Facet {
    /// The twelve words of the facet, in file order.
    pub open spec fn words(&self) -> Seq<u32> {
        self.normal@ + self.a@ + self.b@ + self.c@
    }
}

/// The text at the start of every header.
pub open spec fn header_text() -> &'static str {
    "openscad_rs (Manifold) binary STL"
}

/// The little-endian bytes of `x`.
pub open spec fn le32(x: u32) -> Seq<u8> {
    seq![
        (x & 0xff) as u8,
        ((x >> 8u32) & 0xff) as u8,
        ((x >> 16u32) & 0xff) as u8,
        ((x >> 24u32) & 0xff) as u8,
    ]
}

/// The value of four little-endian bytes.
pub open spec fn le32_value(b: Seq<u8>) -> u32 {
    (b[0] as u32) | ((b[1] as u32) << 8u32) | ((b[2] as u32) << 16u32) | ((b[3] as u32) << 24u32)
}

/// The little-endian bytes of each word, one after the other.
pub open spec fn words_le(w: Seq<u32>) -> Seq<u8>
    decreases w.len(),
{
    if w.len() == 0 {
        Seq::empty()
    } else {
        words_le(w.drop_last()) + le32(w.last())
    }
}

/// The 80-byte header: the header text, cut at 80 bytes, then zeros.
pub open spec fn header_bytes() -> Seq<u8> {
    let h = header_text().spec_bytes();
    let n = if h.len() < 80 {
        h.len()
    } else {
        80
    };
    h.take(n as int) + Seq::new((80 - n) as nat, |i: int| 0u8)
}

/// The 50 bytes of a facet.
pub open spec fn facet_bytes(f: Facet) -> Seq<u8> {
    words_le(f.words()) + seq![0u8, 0u8]
}

/// The bytes of the facets, one after the other.
pub open spec fn facets_bytes(fs: Seq<Facet>) -> Seq<u8>
    decreases fs.len(),
{
    if fs.len() == 0 {
        Seq::empty()
    } else {
        facets_bytes(fs.drop_last()) + facet_bytes(fs.last())
    }
}

/// A whole file: header, triangle count (as a `u32`, modulo 2^32), facets.
pub open spec fn stl_file(fs: Seq<Facet>) -> Seq<u8> {
    header_bytes() + le32(fs.len() as u32) + facets_bytes(fs)
}

/// Appends the little-endian bytes of `x`.
fn push_le32(out: &mut Vec<u8>, x: u32)
    ensures
        final(out)@ == old(out)@ + le32(x),
{
    out.push((x & 0xff) as u8);
    out.push(((x >> 8u32) & 0xff) as u8);
    out.push(((x >> 16u32) & 0xff) as u8);
    out.push(((x >> 24u32) & 0xff) as u8);
    assert(final(out)@ =~= old(out)@ + le32(x));
}

/// Appends the little-endian bytes of the three words.
fn push_triple(out: &mut Vec<u8>, w: &[u32; 3])
    ensures
        final(out)@ == old(out)@ + words_le(w@),
{
    let ghost s = w@;
    push_le32(out, w[0]);
    push_le32(out, w[1]);
    push_le32(out, w[2]);
    let ghost s2 = s.drop_last();
    let ghost s1 = s2.drop_last();
    assert(s1.drop_last() =~= Seq::<u32>::empty());
    assert(words_le(s1.drop_last()) == Seq::<u8>::empty());
    assert(s1.last() == s[0]);
    assert(s2.last() == s[1]);
    assert(words_le(s1) =~= le32(s[0]));
    assert(words_le(s2) =~= le32(s[0]) + le32(s[1]));
    assert(words_le(s) =~= le32(s[0]) + le32(s[1]) + le32(s[2]));
    assert(final(out)@ =~= old(out)@ + words_le(w@));
}

/// The bytes of the words of `u + v` are those of `u`, then those of `v`.
proof fn lemma_words_le_append(u: Seq<u32>, v: Seq<u32>)
    ensures
        words_le(u + v) == words_le(u) + words_le(v),
    decreases v.len(),
{
    if v.len() == 0 {
        assert(u + v =~= u);
        assert(words_le(v) =~= Seq::<u8>::empty());
        assert(words_le(u) + words_le(v) =~= words_le(u));
    } else {
        lemma_words_le_append(u, v.drop_last());
        assert((u + v).drop_last() =~= u + v.drop_last());
        assert((u + v).last() == v.last());
        assert(words_le(u + v) =~= words_le(u) + words_le(v));
    }
}

/// The binary STL file of the facets.
pub fn encode_binary_stl(facets: &Vec<Facet>) -> (out: Vec<u8>)
    ensures
        out@ == stl_file(facets@),
{
    let mut out: Vec<u8> = Vec::new();
    let header = "openscad_rs (Manifold) binary STL".as_bytes();
    let n = if header.len() < 80 {
        header.len()
    } else {
        80
    };
    let mut i: usize = 0;
    while i < n
        invariant
            header@ == header_text().spec_bytes(),
            n <= header@.len(),
            n <= 80,
            i <= n,
            out@ == header@.take(i as int),
        decreases n - i,
    {
        out.push(header[i]);
        i = i + 1;
        assert(out@ =~= header@.take(i as int));
    }
    while out.len() < 80
        invariant
            header@ == header_text().spec_bytes(),
            n <= 80,
            n == (if header@.len() < 80 {
                header@.len()
            } else {
                80
            }),
            n <= out@.len() <= 80,
            out@ =~= header@.take(n as int) + Seq::new((out@.len() - n) as nat, |j: int| 0u8),
        decreases 80 - out@.len(),
    {
        out.push(0u8);
        assert(out@ =~= header@.take(n as int) + Seq::new((out@.len() - n) as nat, |j: int| 0u8));
    }
    assert(out@ =~= header_bytes());
    #[verifier::truncate]
    let count = facets.len() as u32;
    push_le32(&mut out, count);
    let ghost start = out@;
    let mut k: usize = 0;
    while k < facets.len()
        invariant
            k <= facets@.len(),
            start == header_bytes() + le32(facets@.len() as u32),
            out@ == start + facets_bytes(facets@.take(k as int)),
        decreases facets@.len() - k,
    {
        let f = &facets[k];
        let ghost before = out@;
        push_triple(&mut out, &f.normal);
        push_triple(&mut out, &f.a);
        push_triple(&mut out, &f.b);
        push_triple(&mut out, &f.c);
        out.push(0u8);
        out.push(0u8);
        proof {
            lemma_words_le_append(f.normal@, f.a@);
            lemma_words_le_append(f.normal@ + f.a@, f.b@);
            lemma_words_le_append(f.normal@ + f.a@ + f.b@, f.c@);
            assert(facets@.take(k + 1).drop_last() =~= facets@.take(k as int));
            assert(facets@.take(k + 1).last() == *f);
        }
        assert(out@ =~= before + facet_bytes(*f));
        k = k + 1;
        assert(out@ =~= start + facets_bytes(facets@.take(k as int)));
    }
    assert(facets@.take(facets@.len() as int) =~= facets@);
    out
}

/// The count written into a file reads back as the number of facets,
/// modulo 2^32.
pub proof fn lemma_le32_roundtrip(x: u32)
    ensures
        le32(x).len() == 4,
        le32_value(le32(x)) == x,
{
    let b0 = (x & 0xff) as u8;
    let b1 = ((x >> 8u32) & 0xff) as u8;
    let b2 = ((x >> 16u32) & 0xff) as u8;
    let b3 = ((x >> 24u32) & 0xff) as u8;
    assert((b0 as u32) | ((b1 as u32) << 8u32) | ((b2 as u32) << 16u32) | ((b3 as u32) << 24u32)
        == x) by (bit_vector)
        requires
            b0 == (x & 0xff) as u8,
            b1 == ((x >> 8u32) & 0xff) as u8,
            b2 == ((x >> 16u32) & 0xff) as u8,
            b3 == ((x >> 24u32) & 0xff) as u8,
    ;
}

/// A file is 84 bytes of header and count, then 50 bytes per facet.
pub proof fn lemma_stl_length(fs: Seq<Facet>)
    ensures
        stl_file(fs).len() == 84 + 50 * fs.len(),
    decreases fs.len(),
{
    lemma_facets_length(fs);
}

proof fn lemma_words_length(w: Seq<u32>)
    ensures
        words_le(w).len() == 4 * w.len(),
    decreases w.len(),
{
    if w.len() > 0 {
        lemma_words_length(w.drop_last());
    }
}

proof fn lemma_facets_length(fs: Seq<Facet>)
    ensures
        facets_bytes(fs).len() == 50 * fs.len(),
    decreases fs.len(),
{
    if fs.len() > 0 {
        lemma_facets_length(fs.drop_last());
        let f = fs.last();
        lemma_words_length(f.words());
    }
}

} // verus!
