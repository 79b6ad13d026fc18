//! Capturing from the world: a camera, a microphone, a speaker.
//!
//! The capturing itself is ffmpeg's, run by the daemon. What is here is what
//! the engine decides around it — what ffmpeg is asked, where the file goes,
//! what a failure is turned into — and the formats it reads and writes on
//! its own: base64 for a preview, a WAV header, and the loudness envelope a
//! face's mouth follows.
use vstd::prelude::*;
use crate::text::{
    append, chars_of, decimal, decimal_of, first_index, find_text, join_path, joined, last_line, last_said, owned,
    push_char, same, slice, starts_with, trim_of, trimmed,
};
use crate::run::model::swapped;
use crate::run::value::Media;

verus! {

/// The base64 alphabet (RFC 4648): the letters, the digits, `+` and `/`.
pub open spec fn alphabet() -> Seq<char> {
    seq![
        'A', 'B', 'C', 'D', 'E', 'F', 'G', 'H', 'I', 'J', 'K', 'L', 'M', 'N', 'O', 'P',
        'Q', 'R', 'S', 'T', 'U', 'V', 'W', 'X', 'Y', 'Z', 'a', 'b', 'c', 'd', 'e', 'f',
        'g', 'h', 'i', 'j', 'k', 'l', 'm', 'n', 'o', 'p', 'q', 'r', 's', 't', 'u', 'v',
        'w', 'x', 'y', 'z', '0', '1', '2', '3', '4', '5', '6', '7', '8', '9', '+', '/'
    ]
}

pub open spec fn symbol(i: int) -> char {
    alphabet()[i]
}

/// Three bytes as four symbols; with fewer than three, the missing bytes
/// read as zero and the symbols they alone would decide become `=`.
pub open spec fn quad(a: int, b: int, c: int, have: int) -> Seq<char> {
    let s0 = symbol(a / 4);
    let s1 = symbol((a % 4) * 16 + b / 16);
    let s2 = if have >= 2 { symbol((b % 16) * 4 + c / 64) } else { '=' };
    let s3 = if have >= 3 { symbol(c % 64) } else { '=' };
    seq![s0, s1, s2, s3]
}

/// Base64 of some bytes, with padding (RFC 4648).
pub open spec fn base64_of(bytes: Seq<u8>) -> Seq<char>
    decreases bytes.len(),
{
    if bytes.len() == 0 {
        seq![]
    } else if bytes.len() == 1 {
        quad(bytes[0] as int, 0, 0, 1)
    } else if bytes.len() == 2 {
        quad(bytes[0] as int, bytes[1] as int, 0, 2)
    } else {
        quad(bytes[0] as int, bytes[1] as int, bytes[2] as int, 3) + base64_of(bytes.skip(3))
    }
}


/// Base64, because one function is cheaper than one dependency.
pub fn base64(bytes: &[u8]) -> (s: String)
    ensures
        s@ == base64_of(bytes@),
{
    let table: [char; 64] = [
        'A', 'B', 'C', 'D', 'E', 'F', 'G', 'H', 'I', 'J', 'K', 'L', 'M', 'N', 'O', 'P',
        'Q', 'R', 'S', 'T', 'U', 'V', 'W', 'X', 'Y', 'Z', 'a', 'b', 'c', 'd', 'e', 'f',
        'g', 'h', 'i', 'j', 'k', 'l', 'm', 'n', 'o', 'p', 'q', 'r', 's', 't', 'u', 'v',
        'w', 'x', 'y', 'z', '0', '1', '2', '3', '4', '5', '6', '7', '8', '9', '+', '/',
    ];
    proof { assert(table@ =~= alphabet()); }
    let mut out = String::new();
    let mut i: usize = 0;
    proof {
        assert(bytes@.skip(0) =~= bytes@);
        assert(out@ + base64_of(bytes@) =~= base64_of(bytes@));
    }
    while i < bytes.len()
        invariant
            i <= bytes@.len(),
            table@ == alphabet(),
            i % 3 == 0 || i == bytes@.len(),
            out@ + base64_of(bytes@.skip(i as int)) == base64_of(bytes@),
        decreases bytes.len() - i,
    {
        let have = bytes.len() - i;
        let a = bytes[i];
        let b = if have >= 2 { bytes[i + 1] } else { 0 };
        let c = if have >= 3 { bytes[i + 2] } else { 0 };
        let ghost rest = bytes@.skip(i as int);
        let ghost q = quad(a as int, b as int, c as int, if have >= 3 { 3 } else { have as int });
        push_char(&mut out, table[(a / 4) as usize]);
        push_char(&mut out, table[((a % 4) * 16 + b / 16) as usize]);
        push_char(&mut out, if have >= 2 { table[((b % 16) * 4 + c / 64) as usize] } else { '=' });
        push_char(&mut out, if have >= 3 { table[(c % 64) as usize] } else { '=' });
        let ghost before = out@;
        proof {
            assert(rest[0] == a);
            if have >= 2 { assert(rest[1] == bytes@[i + 1]); }
            if have >= 3 {
                assert(rest[2] == bytes@[i + 2]);
                assert(rest.skip(3) =~= bytes@.skip(i + 3));
                assert(base64_of(rest) == q + base64_of(rest.skip(3)));
            }
        }
        if have >= 3 {
            i = i + 3;
        } else {
            i = bytes.len();
            proof {
                assert(bytes@.skip(i as int) =~= Seq::<u8>::empty());
                assert(base64_of(rest) == q);
            }
        }
        proof {
            assert(out@ + base64_of(bytes@.skip(i as int)) =~= base64_of(bytes@));
        }
    }
    proof { assert(bytes@.skip(bytes@.len() as int) =~= Seq::<u8>::empty()); }
    out
}

/// Every three bytes become four symbols, the last group padded: base64 of
/// `n` bytes is `4 * ceil(n / 3)` symbols long.
/// Base64 of two runs of bytes, the first a whole number of three-byte
/// groups, is the base64 of each, one after the other.
pub proof fn law_base64_concat(a: Seq<u8>, b: Seq<u8>)
    requires
        a.len() % 3 == 0,
    ensures
        base64_of(a + b) == base64_of(a) + base64_of(b),
    decreases a.len(),
{
    if a.len() == 0 {
        assert(a + b =~= b);
        assert(base64_of(a) + base64_of(b) =~= base64_of(b));
    } else {
        assert((a + b).skip(3) =~= a.skip(3) + b);
        law_base64_concat(a.skip(3), b);
        assert((a + b)[0] == a[0] && (a + b)[1] == a[1] && (a + b)[2] == a[2]);
        assert(base64_of(a + b) =~= base64_of(a) + base64_of(b));
    }
}

/// A character base64 may write: one of the alphabet, or the `=` of padding.
pub open spec fn base64_char(c: char) -> bool {
    alphabet().contains(c) || c == '='
}

proof fn lemma_symbol_in_alphabet(i: int)
    requires
        0 <= i < 64,
    ensures
        alphabet().contains(symbol(i)),
{
    assert(alphabet().len() == 64);
    assert(alphabet()[i] == symbol(i));
}

/// Base64 writes only the alphabet and `=`, and the `=` come last: none for
/// a whole number of three-byte groups, two for one byte over, one for two.
pub proof fn law_base64_alphabet(bytes: Seq<u8>)
    ensures
        forall|k: int| 0 <= k < base64_of(bytes).len() ==> base64_char(#[trigger] base64_of(bytes)[k]),
        forall|k: int| 0 <= k < base64_of(bytes).len() ==> (#[trigger] base64_of(bytes)[k] == '=')
            == (k >= base64_of(bytes).len() - (3 - bytes.len() % 3) % 3),
    decreases bytes.len(),
{
    let s = base64_of(bytes);
    law_base64_length(bytes);
    if bytes.len() == 0 {
    } else if bytes.len() < 3 {
        let a = bytes[0] as int;
        let b: int = if bytes.len() == 2 { bytes[1] as int } else { 0 };
        lemma_symbol_in_alphabet(a / 4);
        lemma_symbol_in_alphabet((a % 4) * 16 + b / 16);
        lemma_symbol_in_alphabet((b % 16) * 4);
        assert(!alphabet().contains('=')) by {
            if alphabet().contains('=') {
                let j = choose|j: int| 0 <= j < alphabet().len() && alphabet()[j] == '=';
                assert(alphabet()[j] != '=');
            }
        }
    } else {
        let r = bytes.skip(3);
        law_base64_alphabet(r);
        law_base64_length(r);
        let q = quad(bytes[0] as int, bytes[1] as int, bytes[2] as int, 3);
        lemma_symbol_in_alphabet(bytes[0] as int / 4);
        lemma_symbol_in_alphabet((bytes[0] as int % 4) * 16 + bytes[1] as int / 16);
        lemma_symbol_in_alphabet((bytes[1] as int % 16) * 4 + bytes[2] as int / 64);
        lemma_symbol_in_alphabet(bytes[2] as int % 64);
        assert(!alphabet().contains('=')) by {
            if alphabet().contains('=') {
                let j = choose|j: int| 0 <= j < alphabet().len() && alphabet()[j] == '=';
                assert(alphabet()[j] != '=');
            }
        }
        assert(s == q + base64_of(r));
        assert(r.len() % 3 == bytes.len() % 3);
        assert forall|k: int| 0 <= k < s.len() implies base64_char(#[trigger] s[k])
            && ((s[k] == '=') == (k >= s.len() - (3 - bytes.len() % 3) % 3)) by {
            if k < 4 {
                assert(s[k] == q[k]);
            } else {
                assert(s[k] == base64_of(r)[k - 4]);
            }
        }
    }
}

pub proof fn law_base64_length(bytes: Seq<u8>)
    ensures
        base64_of(bytes).len() == 4 * ((bytes.len() + 2) / 3),
    decreases bytes.len(),
{
    if bytes.len() >= 3 {
        law_base64_length(bytes.skip(3));
    }
}

} // verus!

verus! {

/// A number as two little-endian bytes.
pub open spec fn le16(x: int) -> Seq<u8> {
    seq![(x % 256) as u8, ((x / 256) % 256) as u8]
}

/// A number as four little-endian bytes.
pub open spec fn le32(x: int) -> Seq<u8> {
    seq![(x % 256) as u8, ((x / 256) % 256) as u8, ((x / 65536) % 256) as u8, ((x / 16777216) % 256) as u8]
}

/// Four bytes read back as a little-endian number.
pub open spec fn word(b: Seq<u8>, at: int) -> int {
    b[at] as int + 256 * b[at + 1] as int + 65536 * b[at + 2] as int + 16777216 * b[at + 3] as int
}

/// `RIFF`, `WAVE`, `fmt ` and `data`, as the bytes a WAV file spells them.
pub open spec fn riff_tag() -> Seq<u8> { seq![0x52u8, 0x49, 0x46, 0x46] }
pub open spec fn wave_tag() -> Seq<u8> { seq![0x57u8, 0x41, 0x56, 0x45] }
pub open spec fn fmt_tag() -> Seq<u8> { seq![0x66u8, 0x6d, 0x74, 0x20] }
pub open spec fn data_tag() -> Seq<u8> { seq![0x64u8, 0x61, 0x74, 0x61] }

/// A sample as the two bytes 16-bit PCM stores it in.
pub open spec fn sample_bytes(samples: Seq<i16>) -> Seq<u8>
    decreases samples.len(),
{
    if samples.len() == 0 {
        seq![]
    } else {
        sample_bytes(samples.drop_last()) + le16(if samples.last() < 0 { samples.last() + 65536 } else { samples.last() as int })
    }
}

/// A 16-bit mono PCM WAV around some samples: forty-four bytes of header,
/// then the samples. Sizes that do not fit the header's four bytes wrap, as
/// the format's own fields do.
pub open spec fn wav_of(samples: Seq<i16>, rate: u32) -> Seq<u8> {
    wav_header(2 * (samples.len() as int), rate) + sample_bytes(samples)
}

/// The header of a WAV holding `n` bytes of 16-bit mono samples.
#[verifier::opaque]
pub open spec fn wav_header(n: int, rate: u32) -> Seq<u8> {
    riff_tag() + le32((36 + n) % 0x1_0000_0000) + wave_tag() + fmt_tag() + le32(16) + le16(1) + le16(1)
        + le32(rate as int) + le32(2 * rate) + le16(2) + le16(16) + data_tag() + le32(n % 0x1_0000_0000)
}

fn header(n: u128, rate: u32) -> (out: Vec<u8>)
    requires
        2 * rate <= u32::MAX,
        n <= 0x1_0000_0000_0000_0000_0000,
    ensures
        out@ == wav_header(n as int, rate),
{
    reveal(wav_header);
    let mut out: Vec<u8> = Vec::new();
    push_tag(&mut out, 0x52, 0x49, 0x46, 0x46);
    proof { assert(out@ =~= riff_tag()); }
    push32(&mut out, ((36 + n) % 0x1_0000_0000) as u64);
    push_tag(&mut out, 0x57, 0x41, 0x56, 0x45);
    push_tag(&mut out, 0x66, 0x6d, 0x74, 0x20);
    push32(&mut out, 16);
    push16(&mut out, 1);
    push16(&mut out, 1);
    push32(&mut out, rate as u64);
    push32(&mut out, 2 * rate as u64);
    push16(&mut out, 2);
    push16(&mut out, 16);
    push_tag(&mut out, 0x64, 0x61, 0x74, 0x61);
    push32(&mut out, (n % 0x1_0000_0000) as u64);
    out
}

fn push16(out: &mut Vec<u8>, x: u32)
    requires
        x < 65536,
    ensures
        final(out)@ == old(out)@ + le16(x as int),
{
    out.push((x % 256) as u8);
    out.push(((x / 256) % 256) as u8);
    proof { assert(final(out)@ =~= old(out)@ + le16(x as int)); }
}

fn push32(out: &mut Vec<u8>, x: u64)
    requires
        x < 0x1_0000_0000,
    ensures
        final(out)@ == old(out)@ + le32(x as int),
{
    out.push((x % 256) as u8);
    out.push(((x / 256) % 256) as u8);
    out.push(((x / 65536) % 256) as u8);
    out.push(((x / 16777216) % 256) as u8);
    proof { assert(final(out)@ =~= old(out)@ + le32(x as int)); }
}

fn push_tag(out: &mut Vec<u8>, a: u8, b: u8, c: u8, d: u8)
    ensures
        final(out)@ == old(out)@ + seq![a, b, c, d],
{
    out.push(a);
    out.push(b);
    out.push(c);
    out.push(d);
    proof { assert(final(out)@ =~= old(out)@ + seq![a, b, c, d]); }
}

/// A 16-bit mono PCM WAV around some samples.
///
/// The scripted voice writes one, and so does the envelope's own test: the
/// format is forty-four bytes of header, and having it here means neither
/// needs ffmpeg to make a sound.
pub fn wav(samples: &[i16], rate: u32) -> (out: Vec<u8>)
    requires
        2 * rate <= u32::MAX,
    ensures
        out@ == wav_of(samples@, rate),
{
    let n: u128 = 2 * samples.len() as u128;
    let mut out = header(n, rate);
    let ghost header = out@;
    let mut i: usize = 0;
    proof { assert(samples@.take(0) =~= Seq::<i16>::empty()); assert(header + sample_bytes(samples@.take(0)) =~= header); }
    while i < samples.len()
        invariant
            i <= samples@.len(),
            out@ == header + sample_bytes(samples@.take(i as int)),
        decreases samples.len() - i,
    {
        let s = samples[i];
        let u: u32 = if s < 0 { (s as i32 + 65536) as u32 } else { s as u32 };
        push16(&mut out, u);
        proof {
            assert(samples@.take(i + 1).drop_last() =~= samples@.take(i as int));
            assert(out@ =~= header + sample_bytes(samples@.take(i + 1)));
        }
        i = i + 1;
    }
    proof {
        assert(samples@.take(samples@.len() as int) =~= samples@);
    }
    out
}

} // verus!

verus! {

/// Walk the chunks of a RIFF file from `at`, remembering the sample rate the
/// `fmt ` chunk gave, until the `data` chunk: its rate and where its bytes
/// start and end. Chunks are word-aligned: an odd size is followed by a pad
/// byte.
pub open spec fn walk(b: Seq<u8>, at: int, rate: int) -> Option<(int, int, int)>
    decreases b.len() + 1 - at,
{
    if at < 0 || at + 8 > b.len() {
        None
    } else {
        let size = word(b, at + 4);
        let body = at + 8;
        if body + size > b.len() {
            None
        } else if b.subrange(at, at + 4) == data_tag() {
            Some((rate, body, body + size))
        } else {
            let r = if b.subrange(at, at + 4) == fmt_tag() && size >= 16 { word(b, body + 4) } else { rate };
            walk(b, body + size + size % 2, r)
        }
    }
}

/// The sample rate of a 16-bit PCM WAV and where its `data` chunk is. The
/// chunk is found by walking the chunks rather than assuming it starts at
/// byte 44: ffmpeg often writes a LIST chunk before it.
pub open spec fn riff_of(b: Seq<u8>) -> Option<(int, int, int)> {
    if b.len() < 12 || b.subrange(0, 4) != riff_tag() || b.subrange(8, 12) != wave_tag() {
        None
    } else {
        walk(b, 12, 0)
    }
}

fn tag_at(b: &[u8], at: usize, t0: u8, t1: u8, t2: u8, t3: u8) -> (r: bool)
    requires
        at + 4 <= b@.len(),
    ensures
        r == (b@.subrange(at as int, at + 4) == seq![t0, t1, t2, t3]),
{
    let r = b[at] == t0 && b[at + 1] == t1 && b[at + 2] == t2 && b[at + 3] == t3;
    proof {
        if r { assert(b@.subrange(at as int, at + 4) =~= seq![t0, t1, t2, t3]); }
        else if b@.subrange(at as int, at + 4) == seq![t0, t1, t2, t3] {
            assert(b@.subrange(at as int, at + 4)[0] == t0);
            assert(b@.subrange(at as int, at + 4)[1] == t1);
            assert(b@.subrange(at as int, at + 4)[2] == t2);
            assert(b@.subrange(at as int, at + 4)[3] == t3);
        }
    }
    r
}

fn word_at(b: &[u8], at: usize) -> (w: u32)
    requires
        at + 4 <= b@.len(),
    ensures
        w == word(b@, at as int),
{
    b[at] as u32 + 256 * (b[at + 1] as u32) + 65536 * (b[at + 2] as u32) + 16777216 * (b[at + 3] as u32)
}

/// Where the samples of a 16-bit PCM WAV are, and at what rate.
pub fn riff(bytes: &[u8]) -> (r: Option<(u32, usize, usize)>)
    ensures
        match r {
            Some((rate, lo, hi)) => riff_of(bytes@) == Some((rate as int, lo as int, hi as int)) && lo <= hi <= bytes@.len(),
            None => riff_of(bytes@) is None,
        },
{
    if bytes.len() < 12 || !tag_at(bytes, 0, 0x52, 0x49, 0x46, 0x46) || !tag_at(bytes, 8, 0x57, 0x41, 0x56, 0x45) {
        return None;
    }
    let len = bytes.len() as u128;
    let mut at: u128 = 12;
    let mut rate: u32 = 0;
    while at + 8 <= len
        invariant
            len == bytes@.len(),
            riff_of(bytes@) == walk(bytes@, at as int, rate as int),
            at >= 12,
            at <= len + 1,
            len <= usize::MAX,
        decreases len + 1 - at,
    {
        let a = at as usize;
        let size = word_at(bytes, a + 4) as u128;
        let body = at + 8;
        if body + size > len {
            return None;
        }
        if tag_at(bytes, a, 0x64, 0x61, 0x74, 0x61) {
            return Some((rate, body as usize, (body + size) as usize));
        }
        if tag_at(bytes, a, 0x66, 0x6d, 0x74, 0x20) && size >= 16 {
            rate = word_at(bytes, body as usize + 4);
        }
        at = body + size + size % 2;
    }
    None
}

proof fn lemma_le32(x: int)
    requires
        0 <= x < 0x1_0000_0000,
    ensures
        word(le32(x), 0) == x,
{
    let b = le32(x);
    assert(b[0] as int == x % 256);
    assert(b[1] as int == (x / 256) % 256);
    assert(b[2] as int == (x / 65536) % 256);
    assert(b[3] as int == (x / 16777216) % 256);
    assert(x % 256 + 256 * ((x / 256) % 256) + 65536 * ((x / 65536) % 256) + 16777216 * ((x / 16777216) % 256) == x) by (nonlinear_arith)
        requires 0 <= x < 0x1_0000_0000;
}

proof fn lemma_header(n: int, rate: u32)
    ensures
        wav_header(n, rate).len() == 44,
        wav_header(n, rate).subrange(0, 4) == riff_tag(),
        wav_header(n, rate).subrange(8, 12) == wave_tag(),
        wav_header(n, rate).subrange(12, 16) == fmt_tag(),
        wav_header(n, rate).subrange(16, 20) == le32(16),
        wav_header(n, rate).subrange(24, 28) == le32(rate as int),
        wav_header(n, rate).subrange(36, 40) == data_tag(),
        wav_header(n, rate).subrange(40, 44) == le32(n % 0x1_0000_0000),
{
    reveal(wav_header);
    let h = wav_header(n, rate);

    assert(h.subrange(0, 4) =~= riff_tag());
    assert(h.subrange(8, 12) =~= wave_tag());
    assert(h.subrange(12, 16) =~= fmt_tag());
    assert(h.subrange(16, 20) =~= le32(16));
    assert(h.subrange(24, 28) =~= le32(rate as int));
    assert(h.subrange(36, 40) =~= data_tag());
    assert(h.subrange(40, 44) =~= le32(n % 0x1_0000_0000));
}

proof fn lemma_word_of(b: Seq<u8>, at: int, x: int)
    requires
        0 <= at,
        at + 4 <= b.len(),
        0 <= x < 0x1_0000_0000,
        b.subrange(at, at + 4) == le32(x),
    ensures
        word(b, at) == x,
{
    lemma_le32(x);
    assert(b[at] == le32(x)[0]);
    assert(b[at + 1] == le32(x)[1]);
    assert(b[at + 2] == le32(x)[2]);
    assert(b[at + 3] == le32(x)[3]);
}

/// What `wav` writes, `riff` reads back: the rate it was given, and the
/// samples straight after the forty-four bytes of header.
#[verifier::spinoff_prover]
#[verifier::rlimit(60)]
pub proof fn law_wav_round_trip(samples: Seq<i16>, rate: u32)
    requires
        36 + 2 * samples.len() <= u32::MAX,
        2 * rate <= u32::MAX,
    ensures
        riff_of(wav_of(samples, rate)) == Some((rate as int, 44int, 44 + 2 * (samples.len() as int))),
{
    let n: int = 2 * (samples.len() as int);
    let h = wav_header(n, rate);
    let b = wav_of(samples, rate);
    lemma_sample_len(samples);
    lemma_header(n, rate);
    assert(b.len() == 44 + n);
    assert(b.subrange(0, 4) =~= h.subrange(0, 4));
    assert(b.subrange(8, 12) =~= h.subrange(8, 12));
    assert(b.subrange(12, 16) =~= h.subrange(12, 16));
    assert(b.subrange(16, 20) =~= h.subrange(16, 20));
    assert(b.subrange(24, 28) =~= h.subrange(24, 28));
    assert(b.subrange(36, 40) =~= h.subrange(36, 40));
    assert(b.subrange(40, 44) =~= h.subrange(40, 44));
    assert(b.subrange(0, 4) == riff_tag());
    assert(b.subrange(8, 12) == wave_tag());
    assert(b.subrange(12, 16) == fmt_tag());
    assert(b.subrange(36, 40) == data_tag());
    lemma_word_of(b, 16, 16);
    lemma_word_of(b, 24, rate as int);
    assert(n % 0x1_0000_0000 == n);
    lemma_word_of(b, 40, n);
    assert(fmt_tag() != data_tag()) by { assert(fmt_tag()[0] != data_tag()[0]); }
    assert(walk(b, 36, rate as int) == Some((rate as int, 44int, 44 + n)));
    assert(walk(b, 12, 0) == walk(b, 36, rate as int));
}

/// Two little-endian bytes read as a number.
pub open spec fn half(b: Seq<u8>, at: int) -> int {
    b[at] as int + 256 * b[at + 1] as int
}

#[verifier::spinoff_prover]
#[verifier::rlimit(60)]
proof fn lemma_header_fields(n: int, rate: u32)
    requires
        0 <= n,
        36 + n <= u32::MAX,
        2 * rate <= u32::MAX,
    ensures
        ({
            let h = wav_header(n, rate);
            &&& h.len() == 44
            &&& word(h, 4) == 36 + n
            &&& word(h, 16) == 16
            &&& half(h, 20) == 1
            &&& half(h, 22) == 1
            &&& word(h, 24) == rate
            &&& word(h, 28) == 2 * rate
            &&& half(h, 32) == 2
            &&& half(h, 34) == 16
            &&& word(h, 40) == n
        }),
{
    let h = wav_header(n, rate);
    lemma_header(n, rate);
    assert(h.subrange(4, 8) == le32((36 + n) % 0x1_0000_0000) && h.subrange(20, 22) == le16(1)
        && h.subrange(22, 24) == le16(1) && h.subrange(28, 32) == le32(2 * rate)
        && h.subrange(32, 34) == le16(2) && h.subrange(34, 36) == le16(16)) by {
        reveal(wav_header);
        assert(h.subrange(4, 8) =~= le32((36 + n) % 0x1_0000_0000));
        assert(h.subrange(20, 22) =~= le16(1));
        assert(h.subrange(22, 24) =~= le16(1));
        assert(h.subrange(28, 32) =~= le32(2 * rate));
        assert(h.subrange(32, 34) =~= le16(2));
        assert(h.subrange(34, 36) =~= le16(16));
    }
    assert((36 + n) % 0x1_0000_0000 == 36 + n);
    assert(n % 0x1_0000_0000 == n);
    lemma_word_of(h, 4, 36 + n);
    lemma_word_of(h, 16, 16);
    lemma_word_of(h, 24, rate as int);
    lemma_word_of(h, 28, 2 * rate);
    lemma_word_of(h, 40, n);
    assert(h[20] == h.subrange(20, 22)[0] && h[21] == h.subrange(20, 22)[1]);
    assert(h[22] == h.subrange(22, 24)[0] && h[23] == h.subrange(22, 24)[1]);
    assert(h[32] == h.subrange(32, 34)[0] && h[33] == h.subrange(32, 34)[1]);
    assert(h[34] == h.subrange(34, 36)[0] && h[35] == h.subrange(34, 36)[1]);
}

/// A WAV, field by field: `RIFF` and the size of what follows, `WAVE`, a
/// sixteen-byte `fmt ` chunk saying PCM, one channel, the rate, twice the
/// rate a second, two bytes a frame and sixteen bits a sample, then `data`
/// and its size, then the samples.
pub proof fn law_wav_header(samples: Seq<i16>, rate: u32)
    requires
        36 + 2 * samples.len() <= u32::MAX,
        2 * rate <= u32::MAX,
    ensures
        ({
            let w = wav_of(samples, rate);
            &&& w.len() == 44 + 2 * samples.len()
            &&& w.subrange(0, 4) == riff_tag()
            &&& word(w, 4) == w.len() - 8
            &&& w.subrange(8, 12) == wave_tag()
            &&& w.subrange(12, 16) == fmt_tag()
            &&& word(w, 16) == 16
            &&& half(w, 20) == 1
            &&& half(w, 22) == 1
            &&& word(w, 24) == rate
            &&& word(w, 28) == 2 * rate
            &&& half(w, 32) == 2
            &&& half(w, 34) == 16
            &&& w.subrange(36, 40) == data_tag()
            &&& word(w, 40) == 2 * samples.len()
            &&& w.skip(44) == sample_bytes(samples)
        }),
{
    let n: int = 2 * (samples.len() as int);
    let h = wav_header(n, rate);
    let w = wav_of(samples, rate);
    lemma_sample_len(samples);
    lemma_header(n, rate);
    lemma_header_fields(n, rate);
    assert(w.len() == 44 + n);
    assert forall|k: int| 0 <= k < 44 implies #[trigger] w[k] == h[k] by {}
    assert(w.subrange(0, 4) =~= h.subrange(0, 4));
    assert(w.subrange(8, 12) =~= h.subrange(8, 12));
    assert(w.subrange(12, 16) =~= h.subrange(12, 16));
    assert(w.subrange(36, 40) =~= h.subrange(36, 40));
    assert(word(w, 4) == word(h, 4));
    assert(word(w, 16) == word(h, 16));
    assert(word(w, 24) == word(h, 24));
    assert(word(w, 28) == word(h, 28));
    assert(word(w, 40) == word(h, 40));
    assert(half(w, 20) == half(h, 20));
    assert(half(w, 22) == half(h, 22));
    assert(half(w, 32) == half(h, 32));
    assert(half(w, 34) == half(h, 34));
    assert(w.skip(44) =~= sample_bytes(samples));
}

proof fn lemma_sample_len(samples: Seq<i16>)
    ensures
        sample_bytes(samples).len() == 2 * samples.len(),
    decreases samples.len(),
{
    if samples.len() > 0 {
        lemma_sample_len(samples.drop_last());
    }
}

} // verus!

verus! {

/// How many buckets a lip-sync envelope has per second of audio: a mouth
/// that moves with the syllables rather than with the waveform.
pub const ENVELOPE_HZ: u32 = 12;

/// The `k`-th 16-bit sample of some PCM bytes.
pub open spec fn sample_at(d: Seq<u8>, k: int) -> int {
    let v = d[2 * k] as int + 256 * d[2 * k + 1] as int;
    if v >= 32768 { v - 65536 } else { v }
}

pub open spec fn magnitude(v: int) -> int {
    if v < 0 { -v } else { v }
}

/// The loudest sample from `lo` up to `hi`.
pub open spec fn peak(d: Seq<u8>, lo: int, hi: int) -> int
    decreases hi - lo,
{
    if lo >= hi {
        0
    } else {
        let rest = peak(d, lo + 1, hi);
        let here = magnitude(sample_at(d, lo));
        if here > rest { here } else { rest }
    }
}

/// A peak as a mouth opening: full scale is 255, silence is 0.
pub open spec fn opening(p: int) -> int {
    let v = p * 255 / 32767;
    if v > 255 { 255 } else { v }
}

/// The openings of the buckets from `start` on, each `per` samples wide.
pub open spec fn buckets(d: Seq<u8>, n: int, per: int, start: int) -> Seq<u8>
    decreases n + per - start,
{
    if per <= 0 || start >= n {
        seq![]
    } else {
        let end = if start + per < n { start + per } else { n };
        seq![opening(peak(d, start, end)) as u8] + buckets(d, n, per, start + per)
    }
}

/// The loudness of a 16-bit PCM WAV over time, 0–255 per bucket, twelve
/// buckets a second. Anything that is not such a WAV gets an
/// empty envelope and a closed mouth, which is wrong but quiet.
pub open spec fn envelope_spec(b: Seq<u8>) -> Seq<u8> {
    match riff_of(b) {
        None => seq![],
        Some((rate, lo, hi)) => {
            let d = b.subrange(lo, hi);
            let n: int = (d.len() / 2) as int;
            let per = if rate / 12 > 1 { rate / 12 } else { 1 };
            if n == 0 || rate == 0 { seq![] } else { buckets(d, n, per, 0) }
        },
    }
}

fn sample_of(b: &[u8], lo: usize, k: usize) -> (v: i32)
    requires
        lo + 2 * k + 1 < b@.len(),
    ensures
        v == sample_at(b@.subrange(lo as int, b@.len() as int), k as int),
{
    let _len = b.len();
    let x = b[lo + 2 * k] as i32 + 256 * (b[lo + 2 * k + 1] as i32);
    proof {
        let d = b@.subrange(lo as int, b@.len() as int);
        assert(d[2 * k] == b@[lo + 2 * k]);
        assert(d[2 * k + 1] == b@[lo + 2 * k + 1]);
    }
    if x >= 32768 { x - 65536 } else { x }
}

proof fn lemma_peak_prefix(d: Seq<u8>, e: Seq<u8>, lo: int, hi: int)
    requires
        0 <= lo,
        2 * hi <= d.len(),
        2 * hi <= e.len(),
        forall|i: int| 0 <= i < 2 * hi ==> d[i] == e[i],
    ensures
        peak(d, lo, hi) == peak(e, lo, hi),
    decreases hi - lo,
{
    if lo < hi {
        lemma_peak_prefix(d, e, lo + 1, hi);
        assert(d[2 * lo] == e[2 * lo]);
        assert(d[2 * lo + 1] == e[2 * lo + 1]);
    }
}

/// The loudness envelope of a WAV's bytes.
pub fn envelope_of(bytes: &[u8]) -> (out: Vec<u8>)
    ensures
        out@ == envelope_spec(bytes@),
{
    let (rate, lo, hi) = match riff(bytes) {
        None => { return Vec::new(); }
        Some(found) => found,
    };
    let ghost d = bytes@.subrange(lo as int, hi as int);
    let ghost wide = bytes@.subrange(lo as int, bytes@.len() as int);
    let n = (hi - lo) / 2;
    if n == 0 || rate == 0 {
        return Vec::new();
    }
    let per: usize = if rate / 12 > 1 { (rate / 12) as usize } else { 1 };
    let mut out: Vec<u8> = Vec::new();
    let mut start: usize = 0;
    proof { assert(out@ + buckets(d, n as int, per as int, 0) =~= buckets(d, n as int, per as int, 0)); }
    while start < n
        invariant
            riff_of(bytes@) == Some((rate as int, lo as int, hi as int)),
            d == bytes@.subrange(lo as int, hi as int),
            wide == bytes@.subrange(lo as int, bytes@.len() as int),
            lo <= hi <= bytes@.len(),
            n == (hi - lo) / 2,
            per >= 1,
            out@ + buckets(d, n as int, per as int, start as int) == buckets(d, n as int, per as int, 0),
        decreases n - start,
    {
        let end: usize = if per < n - start { start + per } else { n };
        let mut p: i32 = 0;
        let mut k = end;
        while k > start
            invariant
                start <= k <= end <= n,
                2 * n <= hi - lo,
                lo <= hi <= bytes@.len(),
                wide == bytes@.subrange(lo as int, bytes@.len() as int),
                p == peak(wide, k as int, end as int),
                0 <= p <= 32768,
            decreases k - start,
        {
            k = k - 1;
            let s = sample_of(bytes, lo, k);
            let m = if s < 0 { -s } else { s };
            if m > p {
                p = m;
            }
        }
        proof {
            assert forall|i: int| 0 <= i < 2 * (end as int) implies wide[i] == d[i] by {}
            lemma_peak_prefix(wide, d, start as int, end as int);
        }
        let v: i32 = p * 255 / 32767;
        let o: u8 = if v > 255 { 255 } else { v as u8 };
        out.push(o);
        proof {
            assert(buckets(d, n as int, per as int, start as int) =~= seq![o] + buckets(d, n as int, per as int, start + per));
        }
        if per < n - start {
            start = start + per;
        } else {
            proof { assert(buckets(d, n as int, per as int, start + per) =~= Seq::<u8>::empty()); }
            start = n;
            proof { assert(buckets(d, n as int, per as int, start as int) =~= Seq::<u8>::empty()); }
        }
        proof { assert(out@ + buckets(d, n as int, per as int, start as int) =~= buckets(d, n as int, per as int, 0)); }
    }
    proof { assert(buckets(d, n as int, per as int, n as int) =~= Seq::<u8>::empty()); assert(out@ =~= out@ + Seq::<u8>::empty()); }
    out
}

} // verus!

verus! {

/// The name a capture gets inside the run's folder: the block, a number
/// nothing else in the run has used, and the extension.
pub open spec fn capture_name(block: Seq<char>, n: nat, extension: Seq<char>) -> Seq<char> {
    block + "-"@ + decimal(n) + "."@ + extension
}

/// Where a run's frames and audio live while it runs.
///
/// One folder per run, removed when it ends, so nothing has to remember to
/// clean up: the folder going away takes everything with it.
/// Making and removing the folder is the daemon's; naming what goes in it is
/// this.
pub struct Scratch {
    dir: String,
    next: u64,
}

impl Scratch {
    pub closed spec fn dir(&self) -> Seq<char> {
        self.dir@
    }

    pub closed spec fn counter(&self) -> nat {
        self.next as nat
    }

    /// The scratch folder at this path, with nothing named in it yet.
    pub fn at(dir: String) -> (s: Scratch)
        ensures
            s.dir() == dir@,
            s.counter() == 0,
    {
        Scratch { dir, next: 0 }
    }

    pub fn path(&self) -> (p: &str)
        ensures
            p@ == self.dir(),
    {
        self.dir.as_str()
    }

    /// A name nothing else in this run is using. The count wraps after
    /// 2^64 names, as a 64-bit counter does.
    pub fn file(&mut self, block: &str, extension: &str) -> (p: String)
        ensures
            p@ == joined(old(self).dir(), capture_name(block@, old(self).counter(), extension@)),
            final(self).dir() == old(self).dir(),
            final(self).counter() == (old(self).counter() + 1) % 0x1_0000_0000_0000_0000,
    {
        let n = self.next;
        self.next = n.wrapping_add(1);
        let mut name = owned(block);
        append(&mut name, "-");
        let digits = decimal_of(n);
        append(&mut name, digits.as_str());
        append(&mut name, ".");
        append(&mut name, extension);
        join_path(self.dir.as_str(), name.as_str())
    }
}

/// Two captures in one run never collide, however fast they come: the
/// names handed out for two different numbers differ.
pub proof fn law_captures_never_collide(dir: Seq<char>, block: Seq<char>, extension: Seq<char>, a: nat, b: nat)
    requires
        a != b,
    ensures
        joined(dir, capture_name(block, a, extension)) != joined(dir, capture_name(block, b, extension)),
{
    let x = capture_name(block, a, extension);
    let y = capture_name(block, b, extension);
    reveal_strlit("-");
    reveal_strlit(".");
    let da = decimal(a);
    let db = decimal(b);
    crate::text::lemma_decimal_digits(a);
    crate::text::lemma_decimal_digits(b);
    if x == y {
        let k: int = block.len() + 1int;
        let la: int = da.len() as int;
        let lb: int = db.len() as int;
        if da.len() < db.len() {
            assert(x[k + la] == '.');
            assert(y[k + la] == db[da.len() as int]);
        } else if db.len() < da.len() {
            assert(y[k + lb] == '.');
            assert(x[k + lb] == da[db.len() as int]);
        } else {
            assert(da =~= x.subrange(k, k + la));
            assert(db =~= y.subrange(k, k + lb));
            crate::text::lemma_decimal_injective(a, b);
        }
    }
    let jx = joined(dir, x);
    let jy = joined(dir, y);
    if jx == jy {
        if x.len() > 0 && x[0] == '/' {
            assert(y[0] == x[0]);
        } else if dir.len() == 0 || dir.last() == '/' {
            assert(x =~= jx.skip(dir.len() as int));
            assert(y =~= jy.skip(dir.len() as int));
        } else {
            assert(x =~= jx.skip(dir.len() + 1int));
            assert(y =~= jy.skip(dir.len() + 1int));
        }
    }
}

/// What kind of thing a device captures.
#[derive(Debug, Clone, Copy, PartialEq, Eq, Structural)]
pub enum Kind {
    Video,
    Audio,
}

/// How a device is named, and what ffmpeg should be told about it.
///
/// A path under `/dev/` is a real device. `lavfi:` names one of ffmpeg's
/// synthetic sources — `lavfi:testsrc`, `lavfi:sine` — which is how a
/// machine with no camera still runs a graph that has a Webcam in it. A file
/// is itself, which is what makes a recorded clip a stand-in for a live
/// device while a graph is being built.
#[derive(Debug, Clone, PartialEq, Eq)]
pub enum Input {
    Device(String),
    Synthetic(String),
    File(String),
}

pub open spec fn input_of(name: Seq<char>, exists: bool) -> (nat, Seq<char>) {
    let t = trim_of(name);
    if t.len() >= 6 && t.take(6) == "lavfi:"@ {
        (1, t.skip(6))
    } else if t.len() >= 5 && t.take(5) == "/dev/"@ {
        (0, t)
    } else if exists {
        (2, t)
    } else {
        (0, t)
    }
}

pub open spec fn input_code(i: Input) -> (nat, Seq<char>) {
    match i {
        Input::Device(n) => (0, n@),
        Input::Synthetic(n) => (1, n@),
        Input::File(n) => (2, n@),
    }
}

impl Input {
    /// Read a device name. `exists` says whether a file exists at the name
    /// once trimmed, which is the one thing asked of the disk. Anything that
    /// is none of the above is a device name the platform understands:
    /// `default` for ALSA, a PipeWire node, a DirectShow name.
    pub fn read(name: &str, kind: Kind, exists: bool) -> (i: Input)
        ensures
            input_code(i) == input_of(name@, exists),
    {
        let _ = kind;
        let t = trimmed(name);
        proof { reveal_strlit("lavfi:"); reveal_strlit("/dev/"); }
        if starts_with(t.as_str(), "lavfi:") {
            let n = crate::text::char_count(t.as_str());
            let rest = slice(t.as_str(), 6, n);
            proof { assert(t@.subrange(6, n as int) =~= t@.skip(6)); }
            return Input::Synthetic(rest);
        }
        if starts_with(t.as_str(), "/dev/") {
            return Input::Device(t);
        }
        if exists {
            return Input::File(t);
        }
        Input::Device(t)
    }

    /// The `-f <format> -i <name>` pair ffmpeg needs.
    pub fn args(&self, kind: Kind) -> (v: Vec<String>)
        ensures
            strings(v@) == input_args(*self, kind),
    {
        let mut v: Vec<String> = Vec::new();
        match self {
            Input::Synthetic(source) => {
                v.push(owned("-f"));
                v.push(owned("lavfi"));
                v.push(owned("-i"));
                v.push(source.clone());
            }
            Input::File(path) => {
                v.push(owned("-i"));
                v.push(path.clone());
            }
            Input::Device(name) => {
                v.push(owned("-f"));
                v.push(match kind { Kind::Video => owned("v4l2"), Kind::Audio => owned("alsa") });
                v.push(owned("-i"));
                v.push(name.clone());
            }
        }
        proof { assert(strings(v@) =~= input_args(*self, kind)); }
        v
    }
}

pub open spec fn strings(v: Seq<String>) -> Seq<Seq<char>> {
    v.map_values(|s: String| s@)
}

/// What ffmpeg is told about an input. ALSA reads a PipeWire device through
/// its compatibility layer, which every Linux desktop has had since 2021.
pub open spec fn input_args(i: Input, kind: Kind) -> Seq<Seq<char>> {
    match i {
        Input::Synthetic(s) => seq!["-f"@, "lavfi"@, "-i"@, s@],
        Input::File(p) => seq!["-i"@, p@],
        Input::Device(n) => seq!["-f"@, if kind == Kind::Video { "v4l2"@ } else { "alsa"@ }, "-i"@, n@],
    }
}

} // verus!

verus! {

/// What ffmpeg is asked to take one frame: the input, the size if one was
/// asked for, and where to write it. A camera is asked for the size before
/// `-i`, so it captures at that size rather than capturing large and
/// throwing pixels away; a synthetic source or a file has no such
/// negotiation, so it is scaled on the way out instead.
pub open spec fn frame_args_of(input: Input, resolution: Option<Seq<char>>, into: Seq<char>) -> Seq<Seq<char>> {
    frame_head(input, resolution) + input_args(input, Kind::Video) + frame_scale(input, resolution)
        + seq!["-frames:v"@, "1"@, "-y"@, into]
}

/// The size asked of a camera, before its `-i`.
pub open spec fn frame_head(input: Input, resolution: Option<Seq<char>>) -> Seq<Seq<char>> {
    match resolution {
        Some(r) => if !crate::text::all_space(r) && input is Device { seq!["-s"@, swapped(r, '×', 'x')] } else { seq![] },
        None => seq![],
    }
}

/// The scaling asked of anything that is not a camera, after its `-i`.
pub open spec fn frame_scale(input: Input, resolution: Option<Seq<char>>) -> Seq<Seq<char>> {
    match resolution {
        Some(r) => if !crate::text::all_space(r) && !(input is Device) {
            seq!["-vf"@, "scale="@ + swapped(swapped(r, '×', 'x'), 'x', ':')]
        } else {
            seq![]
        },
        None => seq![],
    }
}

pub fn frame_args(input: &Input, resolution: Option<&str>, into: &str) -> (v: Vec<String>)
    ensures
        strings(v@) == frame_args_of(*input, match resolution { Some(r) => Some(r@), None => None }, into@),
{
    let base = input.args(Kind::Video);
    let mut v: Vec<String> = Vec::new();
    let mut after: Vec<String> = Vec::new();
    match resolution {
        Some(r) => {
            if !crate::text::is_blank(r) {
                let size = swap_chars(r, '×', 'x');
                match input {
                    Input::Device(_) => {
                        v.push(owned("-s"));
                        v.push(size);
                    }
                    _ => {
                        after.push(owned("-vf"));
                        let mut scale = owned("scale=");
                        let colons = swap_chars(size.as_str(), 'x', ':');
                        append(&mut scale, colons.as_str());
                        after.push(scale);
                    }
                }
            }
        }
        None => {}
    }
    let ghost res = match resolution { Some(r) => Some(r@), None => None };
    proof {
        assert(strings(v@) =~= frame_head(*input, res));
        assert(strings(after@) =~= frame_scale(*input, res));
    }
    let ghost head = strings(v@);
    let ghost mid = strings(after@);
    let mut i: usize = 0;
    proof { assert(head + strings(base@).take(0) =~= head); }
    while i < base.len()
        invariant
            i <= base@.len(),
            strings(v@) == head + strings(base@).take(i as int),
        decreases base.len() - i,
    {
        let ghost pv = strings(v@);
        v.push(base[i].clone());
        proof {
            assert(strings(v@) =~= pv.push(base@[i as int]@));
            assert(strings(base@).take(i + 1) =~= strings(base@).take(i as int).push(base@[i as int]@));
            assert(strings(v@) =~= head + strings(base@).take(i + 1));
        }
        i = i + 1;
    }
    proof { assert(strings(base@).take(base@.len() as int) =~= strings(base@)); }
    let mut k: usize = 0;
    proof { assert(head + strings(base@) + mid.take(0) =~= head + strings(base@)); }
    while k < after.len()
        invariant
            k <= after@.len(),
            strings(v@) == head + strings(base@) + mid.take(k as int),
            mid == strings(after@),
        decreases after.len() - k,
    {
        let ghost pv = strings(v@);
        v.push(after[k].clone());
        proof {
            assert(strings(v@) =~= pv.push(after@[k as int]@));
            assert(mid.take(k + 1) =~= mid.take(k as int).push(after@[k as int]@));
            assert(strings(v@) =~= head + strings(base@) + mid.take(k + 1));
        }
        k = k + 1;
    }
    proof { assert(mid.take(mid.len() as int) =~= mid); }
    let ghost pv = strings(v@);
    v.push(owned("-frames:v"));
    v.push(owned("1"));
    v.push(owned("-y"));
    v.push(owned(into));
    proof {
        assert(strings(v@) =~= pv + seq!["-frames:v"@, "1"@, "-y"@, into@]);
    }
    v
}

/// A text with every `from` turned into `to`.
pub fn swap_chars(s: &str, from: char, to: char) -> (r: String)
    ensures
        r@ == swapped(s@, from, to),
{
    let cs = chars_of(s);
    let mut out = String::new();
    let mut i: usize = 0;
    while i < cs.len()
        invariant
            i <= cs@.len(),
            cs@ == s@,
            out@ == swapped(cs@.take(i as int), from, to),
        decreases cs.len() - i,
    {
        let c = cs[i];
        push_char(&mut out, if c == from { to } else { c });
        proof { assert(swapped(cs@.take(i + 1), from, to) =~= swapped(cs@.take(i as int), from, to).push(if c == from { to } else { c })); }
        i = i + 1;
    }
    proof { assert(cs@.take(cs@.len() as int) =~= cs@); }
    out
}

/// What ffmpeg is asked to play a sound on a device, `default` if none.
pub fn play_args(path: &str, device: Option<&str>) -> (v: Vec<String>)
    ensures
        strings(v@) == seq!["-i"@, path@, "-f"@, "alsa"@, match device { Some(d) => d@, None => "default"@ }],
{
    let mut v: Vec<String> = Vec::new();
    v.push(owned("-i"));
    v.push(owned(path));
    v.push(owned("-f"));
    v.push(owned("alsa"));
    v.push(match device { Some(d) => owned(d), None => owned("default") });
    proof { assert(strings(v@) =~= seq!["-i"@, path@, "-f"@, "alsa"@, match device { Some(d) => d@, None => "default"@ }]); }
    v
}

/// ffmpeg's message turned into one that says what to do.
///
/// Keyed off the input rather than off ffmpeg's wording: the wording changes
/// between versions, but the caller knows perfectly well what it asked for.
pub open spec fn friendlier_text(why: Seq<char>, input: Option<Input>) -> Seq<char> {
    match input {
        Some(Input::Device(name)) => if first_index(why, "Permission denied"@) is Some {
            why + " — `"@ + name@ + "` is there but this user cannot open it."@
        } else if name@.len() >= 10 && name@.take(10) == "/dev/video"@ {
            why + " — no camera at `"@ + name@ + "`. `lavfi:testsrc` stands in for one."@
        } else {
            why + " — could not open `"@ + name@ + "`. `lavfi:sine` stands in for a microphone."@
        },
        Some(Input::File(path)) => why + " — could not read `"@ + path@ + "`."@,
        _ => why,
    }
}

pub fn friendlier(why: &str, input: Option<&Input>) -> (s: String)
    ensures
        s@ == friendlier_text(why@, match input { Some(i) => Some(*i), None => None }),
{
    let mut s = owned(why);
    match input {
        Some(Input::Device(name)) => {
            proof { reveal_strlit("/dev/video"); }
            if find_text(why, "Permission denied").is_some() {
                append(&mut s, " — `");
                append(&mut s, name.as_str());
                append(&mut s, "` is there but this user cannot open it.");
            } else if starts_with(name.as_str(), "/dev/video") {
                append(&mut s, " — no camera at `");
                append(&mut s, name.as_str());
                append(&mut s, "`. `lavfi:testsrc` stands in for one.");
            } else {
                append(&mut s, " — could not open `");
                append(&mut s, name.as_str());
                append(&mut s, "`. `lavfi:sine` stands in for a microphone.");
            }
        }
        Some(Input::File(path)) => {
            append(&mut s, " — could not read `");
            append(&mut s, path.as_str());
            append(&mut s, "`.");
        }
        _ => {}
    }
    s
}

/// Why ffmpeg failed, from what it wrote on stderr: its last line is the
/// one that says what went wrong, and the rest is build configuration
/// nobody asked for.
pub fn ffmpeg_failure(stderr: &str, input: Option<&Input>) -> (s: String)
    ensures
        s@ == friendlier_text(match last_said(stderr@) { Some(l) => l, None => "ffmpeg failed with no message"@ },
            match input { Some(i) => Some(*i), None => None }),
{
    let why = match last_line(stderr) {
        Some(l) => l,
        None => owned("ffmpeg failed with no message"),
    };
    friendlier(why.as_str(), input)
}

} // verus!

verus! {

/// What ffmpeg is always told: no banner, only errors, and never to wait
/// for a person, since it asks before overwriting unless told.
pub open spec fn ffmpeg_fixed() -> Seq<Seq<char>> {
    seq!["-hide_banner"@, "-loglevel"@, "error"@, "-nostdin"@]
}

/// The whole argument list ffmpeg is run with.
pub fn ffmpeg_command(args: &Vec<String>) -> (v: Vec<String>)
    ensures
        strings(v@) == ffmpeg_fixed() + strings(args@),
{
    let mut v: Vec<String> = Vec::new();
    v.push(owned("-hide_banner"));
    v.push(owned("-loglevel"));
    v.push(owned("error"));
    v.push(owned("-nostdin"));
    proof {
        reveal_strlit("-hide_banner");
        reveal_strlit("-loglevel");
        reveal_strlit("error");
        reveal_strlit("-nostdin");
        assert(strings(v@) =~= ffmpeg_fixed());
    }
    let mut i: usize = 0;
    while i < args.len()
        invariant
            i <= args@.len(),
            strings(v@) == ffmpeg_fixed() + strings(args@).take(i as int),
        decreases args.len() - i,
    {
        let ghost before = strings(v@);
        v.push(args[i].clone());
        proof {
            assert(strings(v@) =~= before.push(args@[i as int]@));
            assert(strings(args@).take(i + 1) =~= strings(args@).take(i as int).push(args@[i as int]@));
        }
        i = i + 1;
    }
    proof { assert(strings(args@).take(args@.len() as int) =~= strings(args@)); }
    v
}

/// What it means when ffmpeg cannot be started because it is not there.
pub fn ffmpeg_missing() -> (s: &'static str)
    ensures
        s@ == "ffmpeg is not installed, and the senses need it to reach a camera or a microphone"@,
{
    "ffmpeg is not installed, and the senses need it to reach a camera or a microphone"
}

/// What a run of ffmpeg came to: what it wrote on stderr when it
/// succeeded, and otherwise why it failed, in words about the input.
pub fn ffmpeg_outcome(success: bool, stderr: &str, input: Option<&Input>) -> (r: Result<String, String>)
    ensures
        success ==> (r matches Ok(s) && s@ == stderr@),
        !success ==> (r matches Err(e) && e@ == friendlier_text(match last_said(stderr@) { Some(l) => l, None => "ffmpeg failed with no message"@ },
            match input { Some(i) => Some(*i), None => None })),
{
    if success {
        Ok(owned(stderr))
    } else {
        Err(ffmpeg_failure(stderr, input))
    }
}

} // verus!

verus! {

/// The peak of a run of samples is the loudest of them: none is louder, and
/// one is that loud.
proof fn lemma_peak_is_loudest(d: Seq<u8>, lo: int, hi: int)
    requires
        lo < hi,
    ensures
        forall|j: int| lo <= j < hi ==> magnitude(#[trigger] sample_at(d, j)) <= peak(d, lo, hi),
        exists|j: int| lo <= j < hi && magnitude(#[trigger] sample_at(d, j)) == peak(d, lo, hi),
    decreases hi - lo,
{
    if lo + 1 < hi {
        lemma_peak_is_loudest(d, lo + 1, hi);
        let j = choose|j: int| lo + 1 <= j < hi && magnitude(#[trigger] sample_at(d, j)) == peak(d, lo + 1, hi);
        if magnitude(sample_at(d, lo)) > peak(d, lo + 1, hi) {
            assert(magnitude(sample_at(d, lo)) == peak(d, lo, hi));
        } else {
            assert(magnitude(sample_at(d, j)) == peak(d, lo, hi));
        }
    } else {
        assert(peak(d, lo + 1, hi) == 0);
        assert(magnitude(sample_at(d, lo)) >= 0);
        assert(magnitude(sample_at(d, lo)) == peak(d, lo, hi));
    }
}

/// Whether `b` is how a bucket of samples `lo` up to `hi` opens the mouth:
/// as wide as its loudest sample — no sample in it is louder, and one is
/// that loud.
pub open spec fn opens_to(d: Seq<u8>, lo: int, hi: int, b: u8) -> bool {
    exists|m: int|
        #![trigger opening(m)]
        b == opening(m)
            && (forall|j: int| lo <= j < hi ==> magnitude(#[trigger] sample_at(d, j)) <= m)
            && (exists|j: int| lo <= j < hi && magnitude(#[trigger] sample_at(d, j)) == m)
}

/// Whether `b` is what the `k`-th bucket from `start` shows.
pub open spec fn in_bucket(d: Seq<u8>, n: int, per: int, start: int, k: int, b: u8) -> bool {
    let lo = start + k * per;
    let hi = if lo + per < n { lo + per } else { n };
    lo < hi && opens_to(d, lo, hi, b)
}

proof fn lemma_buckets(d: Seq<u8>, n: int, per: int, start: int)
    requires
        per >= 1,
        0 <= start,
    ensures
        buckets(d, n, per, start).len() == if start >= n { 0 } else { (n - start + per - 1) / per },
        forall|k: int| 0 <= k < buckets(d, n, per, start).len() ==> in_bucket(d, n, per, start, k, #[trigger] buckets(d, n, per, start)[k]),
    decreases n + per - start,
{
    if start < n {
        lemma_buckets(d, n, per, start + per);
        let end = if start + per < n { start + per } else { n };
        lemma_peak_is_loudest(d, start, end);
        let rest = buckets(d, n, per, start + per);
        let all = buckets(d, n, per, start);
        assert(all == seq![opening(peak(d, start, end)) as u8] + rest);
        assert(0 <= peak(d, start, end) <= 65536) by {
            lemma_peak_bounded(d, start, end);
        }
        assert(opening(peak(d, start, end)) as u8 == opening(peak(d, start, end))) by {
            lemma_opening_byte(peak(d, start, end));
        }
        if start + per < n {
            assert((n - start + per - 1) / per == (n - start - 1) / per + 1) by (nonlinear_arith)
                requires per >= 1, n - start > per;
            assert((n - (start + per) + per - 1) / per == (n - start - 1) / per);
        } else {
            assert((n - start + per - 1) / per == 1) by (nonlinear_arith)
                requires per >= 1, 0 < n - start <= per;
        }
        assert forall|k: int| 0 <= k < buckets(d, n, per, start).len() implies in_bucket(d, n, per, start, k, #[trigger] buckets(d, n, per, start)[k]) by {
            if k == 0 {
                assert(k * per == 0) by (nonlinear_arith) requires k == 0;
                assert(all[0] == opening(peak(d, start, end)) as u8);
                assert(opens_to(d, start, end, all[0]));
            } else {
                assert(all[k] == rest[k - 1]);
                assert(start + k * per == (start + per) + (k - 1) * per) by (nonlinear_arith);
            }
        }
    } else {
        assert(buckets(d, n, per, start).len() == 0);
    }
}

proof fn lemma_peak_bounded(d: Seq<u8>, lo: int, hi: int)
    ensures
        0 <= peak(d, lo, hi) <= 65536,
    decreases hi - lo,
{
    if lo < hi {
        lemma_peak_bounded(d, lo + 1, hi);
        let v = d[2 * lo] as int + 256 * d[2 * lo + 1] as int;
        assert(0 <= v <= 65535);
    }
}

proof fn lemma_opening_byte(p: int)
    requires
        0 <= p <= 65536,
    ensures
        0 <= opening(p) <= 255,
{
    assert(0 <= p * 255 / 32767) by (nonlinear_arith)
        requires 0 <= p;
}

/// Each byte of a WAV's envelope is how wide its bucket of samples opens
/// the mouth: as wide as the loudest sample in it, so a short loud syllable
/// is never missed. The buckets are a twelfth of a second each, the last
/// one what is left, and together they cover every sample.
pub proof fn law_envelope_follows_the_loudest(b: Seq<u8>)
    ensures
        match riff_of(b) {
            None => envelope_spec(b).len() == 0,
            Some((rate, lo, hi)) => {
                let d = b.subrange(lo, hi);
                let n: int = (d.len() / 2) as int;
                let per: int = if rate / 12 > 1 { rate / 12 } else { 1 };
                if n == 0 || rate == 0 {
                    envelope_spec(b).len() == 0
                } else {
                    &&& envelope_spec(b).len() == (n + per - 1) / per
                    &&& forall|k: int| 0 <= k < envelope_spec(b).len() ==> {
                        let s = k * per;
                        let e = if s + per < n { s + per } else { n };
                        opens_to(d, s, e, #[trigger] envelope_spec(b)[k])
                    }
                }
            },
        },
{
    match riff_of(b) {
        None => {},
        Some((rate, lo, hi)) => {
            let d = b.subrange(lo, hi);
            let n: int = (d.len() / 2) as int;
            let per: int = if rate / 12 > 1 { rate / 12 } else { 1 };
            if !(n == 0 || rate == 0) {
                lemma_buckets(d, n, per, 0);
            }
        },
    }
}

} // verus!
