//! The stored form of a scan frame: its two dimensions, then its samples,
//! each as four little-endian bytes.  Samples are carried as the bit
//! patterns of their 32-bit floats, so the encoding is exact.
use vstd::prelude::*;

verus! {

/// The bit pattern of the 32-bit float NaN that marks missing samples.
pub const NAN_BITS: u32 = 0x7fc0_0000;

/// A scan frame: `size` is `[columns, rows]` and `data` holds the samples
/// as float bit patterns.
pub struct FrameData {
    pub size: [u32; 2],
    pub data: Vec<u32>,
}

/// The four little-endian bytes of `x`.
pub open spec fn le_bytes(x: u32) -> Seq<u8> {
    seq![(x & 0xff) as u8, ((x >> 8u32) & 0xff) as u8, ((x >> 16u32) & 0xff) as u8, ((x >> 24u32) & 0xff) as u8]
}

/// The word whose little-endian bytes are `b0..b3`.
pub open spec fn le_word(b0: u8, b1: u8, b2: u8, b3: u8) -> u32 {
    (b0 as u32) | ((b1 as u32) << 8u32) | ((b2 as u32) << 16u32) | ((b3 as u32) << 24u32)
}

/// The bytes of `ws`, word after word.
pub open spec fn words_to_bytes(ws: Seq<u32>) -> Seq<u8>
    decreases ws.len(),
{
    if ws.len() == 0 {
        Seq::empty()
    } else {
        words_to_bytes(ws.drop_last()) + le_bytes(ws.last())
    }
}

/// The words read from `b`, four bytes at a time; a trailing partial word
/// is not read.
pub open spec fn bytes_to_words(b: Seq<u8>) -> Seq<u32> {
    Seq::new(b.len() / 4, |k: int| le_word(b[4 * k], b[4 * k + 1], b[4 * k + 2], b[4 * k + 3]))
}

/// The stored form of a frame with dimensions `size` and samples `data`.
pub open spec fn frame_bytes(size: Seq<u32>, data: Seq<u32>) -> Seq<u8> {
    le_bytes(size[0]) + le_bytes(size[1]) + words_to_bytes(data)
}

/// Whether `b` is the stored form of some frame: the two dimensions, then
/// whole samples.
pub open spec fn well_formed_frame_bytes(b: Seq<u8>) -> bool {
    b.len() >= 8 && (b.len() - 8) % 4 == 0
}

pub proof fn lemma_le_word_bytes(x: u32)
    ensures
        le_word(le_bytes(x)[0], le_bytes(x)[1], le_bytes(x)[2], le_bytes(x)[3]) == x,
{
    let b0 = (x & 0xff) as u8;
    let b1 = ((x >> 8u32) & 0xff) as u8;
    let b2 = ((x >> 16u32) & 0xff) as u8;
    let b3 = ((x >> 24u32) & 0xff) as u8;
    assert(le_bytes(x)[0] == b0 && le_bytes(x)[1] == b1 && le_bytes(x)[2] == b2 && le_bytes(x)[3] == b3);
    assert((b0 as u32) | ((b1 as u32) << 8u32) | ((b2 as u32) << 16u32) | ((b3 as u32) << 24u32) == x)
        by (bit_vector)
        requires
            b0 == (x & 0xff) as u8,
            b1 == ((x >> 8u32) & 0xff) as u8,
            b2 == ((x >> 16u32) & 0xff) as u8,
            b3 == ((x >> 24u32) & 0xff) as u8,
    ;
}

pub proof fn lemma_le_bytes_word(b0: u8, b1: u8, b2: u8, b3: u8)
    ensures
        le_bytes(le_word(b0, b1, b2, b3)) == seq![b0, b1, b2, b3],
{
    let x = le_word(b0, b1, b2, b3);
    assert((x & 0xff) as u8 == b0 && ((x >> 8u32) & 0xff) as u8 == b1 && ((x >> 16u32) & 0xff) as u8 == b2
        && ((x >> 24u32) & 0xff) as u8 == b3) by (bit_vector)
        requires
            x == (b0 as u32) | ((b1 as u32) << 8u32) | ((b2 as u32) << 16u32) | ((b3 as u32) << 24u32),
    ;
    assert(le_bytes(x) =~= seq![b0, b1, b2, b3]);
}

/// Each word occupies its own four bytes.
pub proof fn lemma_words_to_bytes_index(ws: Seq<u32>)
    ensures
        words_to_bytes(ws).len() == 4 * ws.len(),
        forall|k: int, j: int|
            0 <= k < ws.len() && 0 <= j < 4 ==> #[trigger] words_to_bytes(ws)[4 * k + j] == le_bytes(ws[k])[j],
    decreases ws.len(),
{
    if ws.len() > 0 {
        let t = ws.drop_last();
        lemma_words_to_bytes_index(t);
        assert forall|k: int, j: int| 0 <= k < ws.len() && 0 <= j < 4 implies #[trigger] words_to_bytes(ws)[4
            * k + j] == le_bytes(ws[k])[j] by {
            if k < t.len() {
                assert(words_to_bytes(ws)[4 * k + j] == words_to_bytes(t)[4 * k + j]);
            }
        }
    }
}

/// Reading back the bytes of some words gives the words.
pub proof fn lemma_words_roundtrip(ws: Seq<u32>)
    ensures
        bytes_to_words(words_to_bytes(ws)) == ws,
{
    lemma_words_to_bytes_index(ws);
    let b = words_to_bytes(ws);
    assert forall|k: int| 0 <= k < ws.len() implies #[trigger] bytes_to_words(b)[k] == ws[k] by {
        assert(b[4 * k + 0] == le_bytes(ws[k])[0]);
        assert(b[4 * k + 1] == le_bytes(ws[k])[1]);
        assert(b[4 * k + 2] == le_bytes(ws[k])[2]);
        assert(b[4 * k + 3] == le_bytes(ws[k])[3]);
        lemma_le_word_bytes(ws[k]);
    }
    assert(bytes_to_words(b) =~= ws);
}

/// Writing out the words read from whole words of bytes gives the bytes.
pub proof fn lemma_bytes_roundtrip(b: Seq<u8>)
    requires
        b.len() % 4 == 0,
    ensures
        words_to_bytes(bytes_to_words(b)) == b,
{
    let ws = bytes_to_words(b);
    lemma_words_to_bytes_index(ws);
    let c = words_to_bytes(ws);
    assert forall|i: int| 0 <= i < b.len() implies #[trigger] c[i] == b[i] by {
        let k = i / 4;
        let j = i % 4;
        assert(i == 4 * k + j);
        lemma_le_bytes_word(b[4 * k], b[4 * k + 1], b[4 * k + 2], b[4 * k + 3]);
        assert(c[4 * k + j] == le_bytes(ws[k])[j]);
    }
    assert(c =~= b);
}

proof fn lemma_two_words(size: Seq<u32>)
    requires
        size.len() == 2,
    ensures
        words_to_bytes(size) == le_bytes(size[0]) + le_bytes(size[1]),
{
    let d = size.drop_last();
    assert(d.drop_last() =~= Seq::<u32>::empty());
    assert(words_to_bytes(d.drop_last()) == Seq::<u8>::empty());
    assert(d.last() == size[0]);
    assert(words_to_bytes(d) == words_to_bytes(d.drop_last()) + le_bytes(d.last()));
    assert(words_to_bytes(d) =~= le_bytes(size[0]));
    assert(words_to_bytes(size) == words_to_bytes(d) + le_bytes(size.last()));
}

/// Decoding the stored form of a frame gives back the frame.
pub proof fn lemma_frame_roundtrip(size: Seq<u32>, data: Seq<u32>)
    requires
        size.len() == 2,
    ensures
        well_formed_frame_bytes(frame_bytes(size, data)),
        bytes_to_words(frame_bytes(size, data).take(8)) == size,
        bytes_to_words(frame_bytes(size, data).skip(8)) == data,
{
    lemma_words_to_bytes_index(data);
    let b = frame_bytes(size, data);
    assert(b.skip(8) =~= words_to_bytes(data));
    lemma_words_roundtrip(data);
    lemma_two_words(size);
    assert(b.take(8) =~= words_to_bytes(size));
    lemma_words_roundtrip(size);
}

/// Encoding the frame decoded from well-formed bytes gives back the bytes.
pub proof fn lemma_frame_bytes_roundtrip(b: Seq<u8>)
    requires
        well_formed_frame_bytes(b),
    ensures
        bytes_to_words(b.take(8)).len() == 2,
        frame_bytes(bytes_to_words(b.take(8)), bytes_to_words(b.skip(8))) == b,
{
    let head = bytes_to_words(b.take(8));
    lemma_bytes_roundtrip(b.take(8));
    lemma_bytes_roundtrip(b.skip(8));
    lemma_two_words(head);
    assert(b =~= b.take(8) + b.skip(8));
}

/// The four little-endian bytes of `x`.
fn push_le_bytes(out: &mut Vec<u8>, x: u32)
    ensures
        final(out)@ == old(out)@ + le_bytes(x),
{
    out.push((x & 0xff) as u8);
    out.push(((x >> 8u32) & 0xff) as u8);
    out.push(((x >> 16u32) & 0xff) as u8);
    out.push(((x >> 24u32) & 0xff) as u8);
    assert(final(out)@ =~= old(out)@ + le_bytes(x));
}

/// The word stored at `bytes[at..at + 4]`, little-endian.
fn read_le_word(bytes: &[u8], at: usize) -> (r: u32)
    requires
        at + 4 <= bytes@.len(),
    ensures
        r == le_word(bytes@[at as int], bytes@[at + 1], bytes@[at + 2], bytes@[at + 3]),
{
    (bytes[at] as u32) | ((bytes[at + 1] as u32) << 8u32) | ((bytes[at + 2] as u32) << 16u32) | ((
    bytes[at + 3] as u32) << 24u32)
}

impl FrameData {
    /// A frame of `size` with samples `data`.
    pub fn new(size: [u32; 2], data: Vec<u32>) -> (f: Self)
        ensures
            f.size == size,
            f.data@ == data@,
    {
        FrameData { size, data }
    }

    /// The frame to show for a downloaded one: a frame without samples,
    /// having a dimension of zero, gives way to the default placeholder.
    pub fn or_placeholder(self) -> (f: Self)
        requires
            self.size[0] * self.size[1] <= u32::MAX,
        ensures
            self.size[0] * self.size[1] == 0 ==> f.size@ == seq![2u32, 2u32] && f.data@ == seq![
                NAN_BITS,
                NAN_BITS,
                NAN_BITS,
                NAN_BITS,
            ],
            self.size[0] * self.size[1] != 0 ==> f.size == self.size && f.data@ == self.data@,
    {
        if self.size[0] * self.size[1] == 0 {
            FrameData::default()
        } else {
            self
        }
    }

    /// The stored form of the frame.
    pub fn as_bytes(&self) -> (b: Vec<u8>)
        ensures
            b@ == frame_bytes(self.size@, self.data@),
    {
        let mut b: Vec<u8> = Vec::new();
        push_le_bytes(&mut b, self.size[0]);
        push_le_bytes(&mut b, self.size[1]);
        let n = self.data.len();
        let mut k: usize = 0;
        while k < n
            invariant
                n == self.data@.len(),
                k <= n,
                b@ == le_bytes(self.size@[0]) + le_bytes(self.size@[1]) + words_to_bytes(self.data@.take(k as int)),
            decreases n - k,
        {
            let ghost before = b@;
            push_le_bytes(&mut b, self.data[k]);
            assert(self.data@.take(k as int + 1).drop_last() =~= self.data@.take(k as int));
            assert(b@ =~= le_bytes(self.size@[0]) + le_bytes(self.size@[1]) + words_to_bytes(
                self.data@.take(k as int + 1),
            ));
            k = k + 1;
        }
        assert(self.data@.take(n as int) =~= self.data@);
        b
    }

    /// The frame stored in `bytes`, which must hold the two dimensions and
    /// then whole samples.
    pub fn from_bytes(bytes: &[u8]) -> (f: Self)
        requires
            well_formed_frame_bytes(bytes@),
        ensures
            f.size@ == bytes_to_words(bytes@.take(8)),
            f.data@ == bytes_to_words(bytes@.skip(8)),
    {
        let s0 = read_le_word(bytes, 0);
        let s1 = read_le_word(bytes, 4);
        let n = bytes.len();
        let count = (n - 8) / 4;
        let mut data: Vec<u32> = Vec::new();
        let mut k: usize = 0;
        while k < count
            invariant
                n == bytes@.len(),
                count == (n - 8) / 4,
                8 + 4 * count <= n,
                k <= count,
                data@ == bytes_to_words(bytes@.skip(8)).take(k as int),
            decreases count - k,
        {
            let w = read_le_word(bytes, 8 + 4 * k);
            data.push(w);
            assert(data@ =~= bytes_to_words(bytes@.skip(8)).take(k as int + 1));
            k = k + 1;
        }
        assert(data@ =~= bytes_to_words(bytes@.skip(8)));
        let size = [s0, s1];
        assert(size@ =~= bytes_to_words(bytes@.take(8)));
        FrameData { size, data }
    }
}

impl Default for FrameData {
    /// A two-by-two frame of missing samples.
    fn default() -> (f: Self)
        ensures
            f.size@ == seq![2u32, 2u32],
            f.data@ == seq![NAN_BITS, NAN_BITS, NAN_BITS, NAN_BITS],
    {
        let f = FrameData { size: [2, 2], data: vec![NAN_BITS, NAN_BITS, NAN_BITS, NAN_BITS] };
        assert(f.size@ =~= seq![2u32, 2u32]);
        f
    }
}

} // verus!
