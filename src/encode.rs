//! Compression: LZSS tokens, Huffman codes for their bit widths, and the
//! container around them.
use vstd::arithmetic::power2::pow2;
use vstd::prelude::*;
use vstd::string::StringExecFns;

pub mod huffman;
pub mod lzss;

use crate::bits::{nat_bits, stream_bits, BitWriter};
use crate::decode::decodes_to;
use crate::errors::VpkError;
use crate::format::{header_bits, tree_bits, VpkHeader, VpkMethod};
use self::huffman::{
    bad_text, built_map, text_fits, text_map, widths_fit, EncodedMaps, HuffCode, MapTree,
    CODE_MAP_LEN,
};
use self::lzss::{
    compress_rdr, count_widths, expand, lzss_from, tokens_ok, LzssByte, LzssPass, LzssSettings,
    HIST_LEN,
};

verus! {

/// The algorithm that searches for LZSS matches.
#[derive(Debug, Clone, Copy, PartialEq, Eq, Hash, Structural)]
pub enum LzssBackend {
    /// Tries every start in the window.
    Brute,
    /// Knuth-Morris-Pratt search.
    Kmp,
    /// Knuth-Morris-Pratt search that never skips a partial match.
    KmpAhead,
}

/// The number of bits needed to write `x`: 0 for 0.
pub open spec fn bit_width(x: nat) -> nat
    decreases x,
{
    if x == 0 {
        0
    } else {
        1 + bit_width(x / 2)
    }
}

/// A number fits in as many bits as its width.
pub proof fn lemma_bit_width_fits(x: nat)
    ensures
        x < pow2(bit_width(x)),
    decreases x,
{
    vstd::arithmetic::power2::lemma2_to64();
    if x > 0 {
        lemma_bit_width_fits(x / 2);
        vstd::arithmetic::power2::lemma_pow2_unfold(bit_width(x));
    }
}

/// A number below `2^k` is at most `k` bits wide.
pub proof fn lemma_bit_width_le(x: nat, k: nat)
    requires
        x < pow2(k),
    ensures
        bit_width(x) <= k,
    decreases x,
{
    vstd::arithmetic::power2::lemma2_to64();
    if x > 0 {
        assert(k > 0);
        vstd::arithmetic::power2::lemma_pow2_unfold(k);
        lemma_bit_width_le(x / 2, (k - 1) as nat);
    }
}

/// How many bits are needed to represent `val`.
pub fn count_needed_bits(val: usize) -> (r: u8)
    ensures
        r as nat == bit_width(val as nat),
{
    let mut v = val;
    let mut n: u8 = 0;
    proof {
        vstd::arithmetic::power2::lemma2_to64();
        lemma_bit_width_le(val as nat, 64);
    }
    while v > 0
        invariant
            n as nat + bit_width(v as nat) == bit_width(val as nat),
            bit_width(val as nat) <= 64,
        decreases v,
    {
        v = v / 2;
        n = n + 1;
    }
    n
}

/// An offset split for the two-sample method: with `v = offset + 8`, the
/// quotient `v / 4` alone when `v` is a multiple of four, else
/// `v % 4 - 1` followed by the quotient.
#[derive(Debug, Clone, Copy, PartialEq, Eq, Structural)]
pub enum TwoSample {
    One(usize),
    Two { first: usize, second: usize },
}

impl TwoSample {
    /// The offset that a decoder computes from the samples.
    pub open spec fn spec_offset(self) -> int {
        match self {
            TwoSample::One(q) => 4 * q - 8,
            TwoSample::Two { first, second } => first + 1 + 4 * second - 8,
        }
    }

    /// Whether a decoder reads exactly these samples: a lone sample is 3 or
    /// more, and a first of two is below 3.
    pub open spec fn readable(self) -> bool {
        match self {
            TwoSample::One(q) => q >= 3,
            TwoSample::Two { first, .. } => first < 3,
        }
    }

    pub fn from_offset(val: usize) -> (r: Self)
        requires
            1 <= val < 0x1_0000_0000,
        ensures
            r == two_sample_of(val as nat),
    {
        let v = val as u64 + 8;
        let quot = (v / 4) as usize;
        let rem = (v % 4) as usize;
        if rem != 0 {
            TwoSample::Two { first: rem - 1, second: quot }
        } else {
            TwoSample::One(quot)
        }
    }
}

/// The samples that the two-sample method writes for an offset.
pub open spec fn two_sample_of(val: nat) -> TwoSample {
    let v = val + 8;
    if v % 4 != 0 {
        TwoSample::Two { first: (v % 4 - 1) as usize, second: (v / 4) as usize }
    } else {
        TwoSample::One((v / 4) as usize)
    }
}

/// Splitting an offset into samples and joining them back gives the offset,
/// and a decoder reads the samples the way they were split.
pub proof fn lemma_two_sample_round_trip(offset: nat)
    requires
        1 <= offset < 0x1_0000_0000,
    ensures
        two_sample_of(offset).spec_offset() == offset,
        two_sample_of(offset).readable(),
{
}

/// The bits that write `val` with a code map: the code of its width, then
/// the value at the width the map gives; `None` when the map has no code
/// for the width or gives a width above 32.
pub open spec fn value_bits(val: nat, map: Seq<Option<(u8, HuffCode)>>) -> Option<Seq<bool>> {
    let w = bit_width(val);
    if w >= CODE_MAP_LEN {
        None
    } else {
        match map[w as int] {
            None => None,
            Some((ew, code)) => {
                if ew > 32 {
                    None
                } else {
                    Some(code.bits() + nat_bits(val, ew as nat))
                }
            },
        }
    }
}

/// `a` followed by `b`, when both exist.
pub open spec fn then(a: Option<Seq<bool>>, b: Option<Seq<bool>>) -> Option<Seq<bool>> {
    match (a, b) {
        (Some(x), Some(y)) => Some(x + y),
        _ => None,
    }
}

/// The bits of one token: `0` and a byte for a literal; `1`, the offset
/// value(s), then the length for a back-reference.
pub open spec fn token_bits(t: LzssByte, om: Seq<Option<(u8, HuffCode)>>, lm: Seq<Option<(u8, HuffCode)>>) -> Option<Seq<bool>> {
    match t {
        LzssByte::Uncoded(b) => Some(seq![false] + nat_bits(b as nat, 8)),
        LzssByte::Encoded(l, o) => then(
            then(Some(seq![true]), value_bits(o as nat, om)),
            value_bits(l as nat, lm),
        ),
        LzssByte::EncTwoSample(l, TwoSample::One(q)) => then(
            then(Some(seq![true]), value_bits(q as nat, om)),
            value_bits(l as nat, lm),
        ),
        LzssByte::EncTwoSample(l, TwoSample::Two { first, second }) => then(
            then(then(Some(seq![true]), value_bits(first as nat, om)), value_bits(second as nat, om)),
            value_bits(l as nat, lm),
        ),
    }
}

/// The bits of a token stream.
pub open spec fn body_bits(toks: Seq<LzssByte>, om: Seq<Option<(u8, HuffCode)>>, lm: Seq<Option<(u8, HuffCode)>>) -> Option<Seq<bool>>
    decreases toks.len(),
{
    if toks.len() == 0 {
        Some(Seq::empty())
    } else {
        then(body_bits(toks.drop_last(), om, lm), token_bits(toks.last(), om, lm))
    }
}

/// Writes `val` with the code map: its code, then the value at the width
/// the map gives.
fn write_encoded_val(out: &mut BitWriter, val: usize, map: &MapTree) -> (r: Result<(), VpkError>)
    requires
        old(out).wf(),
        map.wf(),
        val < 0x1_0000_0000,
    ensures
        final(out).wf(),
        match value_bits(val as nat, map.spec_map()) {
            Some(b) => r is Ok && final(out).written() == old(out).written() + b,
            None => r == Err::<(), VpkError>(VpkError::BadTreeEncoding),
        },
{
    let needed_bits = count_needed_bits(val);
    proof {
        vstd::arithmetic::power2::lemma2_to64();
        lemma_bit_width_le(val as nat, 32);
        lemma_bit_width_fits(val as nat);
    }
    let (encoded_bits, code) = match map.get(needed_bits) {
        Some(x) => x,
        None => {
            return Err(VpkError::BadTreeEncoding);
        },
    };
    if encoded_bits > 32 {
        return Err(VpkError::BadTreeEncoding);
    }
    proof {
        if bit_width(val as nat) < encoded_bits {
            vstd::arithmetic::power2::lemma_pow2_strictly_increases(bit_width(val as nat), encoded_bits as nat);
        }
    }
    out.write_bits(code.bitlen(), code.code);
    out.write_bits(encoded_bits as u32, val as u32);
    assert(final(out).written() =~= old(out).written() + (code.bits() + nat_bits(val as nat, encoded_bits as nat)));
    Ok(())
}

/// Writes one token.
#[verifier::rlimit(100)]
fn write_token(out: &mut BitWriter, token: LzssByte, trees: &EncodedMaps) -> (r: Result<(), VpkError>)
    requires
        old(out).wf(),
        trees.offsets.wf(),
        trees.lengths.wf(),
        lzss::values_fit(token),
    ensures
        final(out).wf(),
        match token_bits(token, trees.offsets.spec_map(), trees.lengths.spec_map()) {
            Some(b) => r is Ok && final(out).written() == old(out).written() + b,
            None => r == Err::<(), VpkError>(VpkError::BadTreeEncoding),
        },
{
    match token {
        LzssByte::Uncoded(byte) => {
            proof {
                vstd::arithmetic::power2::lemma2_to64();
            }
            out.write_bit(false);
            out.write_bits(8, byte as u32);
            assert(final(out).written() =~= old(out).written() + (seq![false] + nat_bits(byte as nat, 8)));
            Ok(())
        },
        LzssByte::Encoded(length, offset) => {
            out.write_bit(true);
            let ghost w1 = out.written();
            match write_encoded_val(out, offset, &trees.offsets) {
                Ok(()) => {},
                Err(e) => {
                    return Err(e);
                },
            }
            let ghost w2 = out.written();
            let r = write_encoded_val(out, length, &trees.lengths);
            proof {
                if r is Ok {
                    assert(final(out).written() =~= old(out).written() + (seq![true] + (w2.subrange(w1.len() as int, w2.len() as int))
                        + final(out).written().subrange(w2.len() as int, final(out).written().len() as int)));
                }
            }
            r
        },
        LzssByte::EncTwoSample(length, sample) => {
            out.write_bit(true);
            match sample {
                TwoSample::One(offset) => {
                    match write_encoded_val(out, offset, &trees.offsets) {
                        Ok(()) => {},
                        Err(e) => {
                            return Err(e);
                        },
                    }
                },
                TwoSample::Two { first, second } => {
                    match write_encoded_val(out, first, &trees.offsets) {
                        Ok(()) => {},
                        Err(e) => {
                            return Err(e);
                        },
                    }
                    match write_encoded_val(out, second, &trees.offsets) {
                        Ok(()) => {},
                        Err(e) => {
                            return Err(e);
                        },
                    }
                },
            }
            write_encoded_val(out, length, &trees.lengths)
        },
    }
}

/// What the written bytes hold: the header, both trees and the body, then
/// zero bits up to a byte boundary.
pub open spec fn file_bits_ok(bytes: Seq<u8>, content: Seq<bool>) -> bool {
    &&& content.len() <= stream_bits(bytes).len()
    &&& stream_bits(bytes).subrange(0, content.len() as int) == content
    &&& stream_bits(bytes).len() < content.len() + 8
    &&& forall|i: int| content.len() <= i < stream_bits(bytes).len() ==> !stream_bits(bytes)[i]
}

/// The bits of a whole file before padding, when every value has a code.
pub open spec fn file_content(h: VpkHeader, pass: Seq<LzssByte>, trees: EncodedMaps) -> Option<Seq<bool>> {
    match body_bits(pass, trees.offsets.spec_map(), trees.lengths.spec_map()) {
        None => None,
        Some(b) => Some(header_bits(h) + tree_bits(trees.offsets.tree.entries@) + tree_bits(
            trees.lengths.tree.entries@,
        ) + b),
    }
}

/// Every value of every token is below `2^32`.
pub open spec fn all_values_fit(toks: Seq<LzssByte>) -> bool {
    forall|i: int| 0 <= i < toks.len() ==> lzss::values_fit(#[trigger] toks[i])
}

/// Writes the header, both trees and every token, then pads to a byte.
#[verifier::rlimit(100)]
pub fn write_file(method: VpkMethod, encoded_data: &LzssPass, trees: &EncodedMaps) -> (r: Result<Vec<u8>, VpkError>)
    requires
        trees.offsets.wf(),
        trees.lengths.wf(),
        encoded_data.decompressed_size is Some,
        all_values_fit(encoded_data.buf@),
    ensures
        ({
            let h = VpkHeader { size: encoded_data.decompressed_size->Some_0, method };
            match file_content(h, encoded_data.buf@, *trees) {
                Some(c) => (r matches Ok(bytes) && file_bits_ok(bytes@, c)),
                None => r == Err::<Vec<u8>, VpkError>(VpkError::BadTreeEncoding),
            }
        }),
{
    let size = match encoded_data.decompressed_size {
        Some(s) => s,
        None => 0,
    };
    let header = VpkHeader { size, method };
    let mut out = BitWriter::new();
    header.write(&mut out);
    trees.offsets.tree.write(&mut out);
    trees.lengths.tree.write(&mut out);
    let ghost start = out.written();
    let ghost toks = encoded_data.buf@;
    let mut i: usize = 0;
    while i < encoded_data.buf.len()
        invariant
            out.wf(),
            trees.offsets.wf(),
            trees.lengths.wf(),
            toks == encoded_data.buf@,
            all_values_fit(toks),
            i <= toks.len(),
            body_bits(toks.subrange(0, i as int), trees.offsets.spec_map(), trees.lengths.spec_map()) matches Some(b) && out.written() == start + b,
        decreases toks.len() - i,
    {
        let ghost before = out.written();
        let r = write_token(&mut out, encoded_data.buf[i], trees);
        proof {
            assert(toks.subrange(0, i + 1).drop_last() =~= toks.subrange(0, i as int));
            assert(toks.subrange(0, i + 1).last() == toks[i as int]);
        }
        match r {
            Ok(()) => {},
            Err(e) => {
                proof {
                    lemma_body_none(toks, i as int, trees.offsets.spec_map(), trees.lengths.spec_map());
                }
                return Err(e);
            },
        }
        i = i + 1;
        assert(out.written() =~= start + body_bits(toks.subrange(0, i as int), trees.offsets.spec_map(), trees.lengths.spec_map())->Some_0);
    }
    assert(toks.subrange(0, toks.len() as int) =~= toks);
    Ok(out.finish())
}

/// Once a token has no bits, the stream has none.
proof fn lemma_body_none(toks: Seq<LzssByte>, i: int, om: Seq<Option<(u8, HuffCode)>>, lm: Seq<Option<(u8, HuffCode)>>)
    requires
        0 <= i < toks.len(),
        body_bits(toks.subrange(0, i + 1), om, lm) is None,
    ensures
        body_bits(toks, om, lm) is None,
    decreases toks.len() - i,
{
    if i + 1 < toks.len() {
        assert(toks.subrange(0, i + 2).drop_last() =~= toks.subrange(0, i + 1));
        lemma_body_none(toks, i + 1, om, lm);
    } else {
        assert(toks.subrange(0, i + 1) =~= toks);
    }
}

/// Tokens that the settings allow have values below `2^32`.
proof fn lemma_tokens_fit(toks: Seq<LzssByte>, settings: LzssSettings, method: VpkMethod)
    requires
        settings.wf(),
        tokens_ok(toks, settings, method),
    ensures
        all_values_fit(toks),
{
    lzss::lemma_settings_bounds(settings);
    assert forall|i: int| 0 <= i < toks.len() implies lzss::values_fit(#[trigger] toks[i]) by {
        assert(lzss::token_ok(toks[i], settings, method));
    }
}

/// The histogram of the widths of a stream's offset values (`offsets`) or
/// length values.
pub open spec fn widths_hist(toks: Seq<LzssByte>, offsets: bool) -> Seq<u64> {
    Seq::new(HIST_LEN as nat, |w: int| count_widths(toks, w as nat, offsets) as u64)
}

/// A code map made as asked: from tree text `t` when given, else from the
/// histogram.
pub open spec fn map_as_asked(t: Option<Seq<char>>, hist: Seq<u64>, m: MapTree) -> bool {
    match t {
        Some(s) => text_map(s, hist, m),
        None => built_map(hist, m),
    }
}

/// The text of an optional tree text.
pub open spec fn text_view(t: Option<&str>) -> Option<Seq<char>> {
    match t {
        Some(s) => Some(s@),
        None => None,
    }
}

/// `bytes` is the file of `input` made as asked: its tokens are those of the
/// LZSS pass (exactly `lzss_from` for the brute-force search), and its code
/// maps come from the given tree texts or from the pass's histograms.
pub open spec fn encoded_as(
    bytes: Seq<u8>,
    input: Seq<u8>,
    method: VpkMethod,
    settings: LzssSettings,
    backend: LzssBackend,
    offsets: Option<Seq<char>>,
    lengths: Option<Seq<char>>,
) -> bool {
    exists|toks: Seq<LzssByte>, trees: EncodedMaps|
        #[trigger] encoded_from_with(bytes, input, method, settings, toks, trees) && toks == lzss_from(input, 0, settings, method, backend) && map_as_asked(
            offsets,
            widths_hist(toks, true),
            trees.offsets,
        ) && map_as_asked(lengths, widths_hist(toks, false), trees.lengths)
}

/// What an encoding owes: `InputTooBig` exactly above `u32::MAX` bytes;
/// success when offsets have at most 31 bits and any given tree texts fit
/// the pass's widths; a
/// `BadUserTree` error for an offset text that does not lex or parse, and
/// an error for such a length text; on success the file made as asked, which
/// decodes back to the input.
pub open spec fn encode_result(
    input: Seq<u8>,
    method: VpkMethod,
    settings: LzssSettings,
    backend: LzssBackend,
    offsets: Option<Seq<char>>,
    lengths: Option<Seq<char>>,
    r: Result<Seq<u8>, VpkError>,
) -> bool {
    &&& (input.len() > u32::MAX <==> r == Err::<Seq<u8>, VpkError>(VpkError::InputTooBig))
    &&& (input.len() <= u32::MAX && settings.offset_bits <= 31 && texts_fit(
        input,
        method,
        settings,
        backend,
        offsets,
        lengths,
    ) ==> r is Ok)
    &&& (input.len() <= u32::MAX && offsets is Some && bad_text(offsets->Some_0) ==> (r matches Err(
        VpkError::BadUserTree(_),
    )))
    &&& (lengths is Some && bad_text(lengths->Some_0) ==> r is Err)
    &&& (input.len() <= u32::MAX && settings.offset_bits <= 31 && (offsets is Some ==> text_fits(
        offsets->Some_0,
        widths_hist(lzss_from(input, 0, settings, method, backend), true),
    )) && lengths is Some && bad_text(lengths->Some_0) ==> (r matches Err(VpkError::BadUserTree(_))))
    &&& (r matches Err(e) ==> (e == VpkError::InputTooBig || e is BadUserTree || e
        == VpkError::BadTreeEncoding))
    &&& (r matches Ok(b) ==> encoded_as(b, input, method, settings, backend, offsets, lengths)
        && decodes_to(b, input))
}

/// Given tree texts read as trees that fit the widths of the pass (see
/// `text_fits`); no text always fits.
pub open spec fn texts_fit(
    input: Seq<u8>,
    method: VpkMethod,
    settings: LzssSettings,
    backend: LzssBackend,
    offsets: Option<Seq<char>>,
    lengths: Option<Seq<char>>,
) -> bool {
    let toks = lzss_from(input, 0, settings, method, backend);
    &&& (offsets matches Some(s) ==> text_fits(s, widths_hist(toks, true)))
    &&& (lengths matches Some(s) ==> text_fits(s, widths_hist(toks, false)))
}

/// The bytes of a result, as a sequence.
pub open spec fn result_view(r: Result<Vec<u8>, VpkError>) -> Result<Seq<u8>, VpkError> {
    match r {
        Ok(v) => Ok(v@),
        Err(e) => Err(e),
    }
}

/// When every token has bits, the stream has bits.
proof fn lemma_body_some(toks: Seq<LzssByte>, om: Seq<Option<(u8, HuffCode)>>, lm: Seq<Option<(u8, HuffCode)>>)
    requires
        forall|i: int| 0 <= i < toks.len() ==> #[trigger] token_bits(toks[i], om, lm) is Some,
    ensures
        body_bits(toks, om, lm) is Some,
    decreases toks.len(),
{
    if toks.len() > 0 {
        let init = toks.drop_last();
        assert forall|i: int| 0 <= i < init.len() implies #[trigger] token_bits(init[i], om, lm) is Some by {
            assert(init[i] == toks[i]);
        }
        lemma_body_some(init, om, lm);
        assert(token_bits(toks[toks.len() - 1], om, lm) is Some);
    }
}

/// A value below `2^32` whose width occurs in the histogram that a built map
/// covers has bits.
proof fn lemma_value_some(v: nat, m: MapTree, hist: Seq<u64>)
    requires
        v < 0x1_0000_0000,
        hist.len() == HIST_LEN,
        m.wf(),
        widths_fit(m.spec_map()),
        hist[bit_width(v) as int] > 0 ==> m.spec_map()[bit_width(v) as int] is Some,
        hist[bit_width(v) as int] > 0,
    ensures
        value_bits(v, m.spec_map()) is Some,
{
    vstd::arithmetic::power2::lemma2_to64();
    lemma_bit_width_le(v, 32);
    let w = bit_width(v) as int;
    assert(m.spec_map()[w] is Some);
}

/// Compresses `input` and writes the file: the LZSS pass, the code maps
/// (from the given trees or from the histograms), then `write_file`.
#[verifier::rlimit(100)]
fn do_encode(
    input: &[u8],
    method: VpkMethod,
    settings: LzssSettings,
    backend: LzssBackend,
    offsets: Option<&str>,
    lengths: Option<&str>,
) -> (r: Result<Vec<u8>, VpkError>)
    requires
        settings.wf(),
    ensures
        encode_result(input@, method, settings, backend, text_view(offsets), text_view(lengths), result_view(r)),
{
    let lzss = match compress_rdr(input, settings, method, backend) {
        Ok(p) => p,
        Err(e) => {
            return Err(e);
        },
    };
    proof {
        lemma_tokens_fit(lzss.buf@, settings, method);
        assert(lzss.buf@.len() <= u32::MAX) by {
            lemma_tokens_cover(lzss.buf@, settings, method);
        }
        if settings.offset_bits <= 31 {
            lzss::lemma_hist_widths(lzss, settings, method);
        }
        assert(widths_hist(lzss.buf@, true) =~= lzss.moveback_bitfreq@) by {
            assert forall|w: int| 0 <= w < HIST_LEN implies lzss.moveback_bitfreq@[w] == count_widths(lzss.buf@, w as nat, true) by {}
        }
        assert(widths_hist(lzss.buf@, false) =~= lzss.size_bitfreq@);
    }
    let huff_maps = match EncodedMaps::new(offsets, lengths, &lzss) {
        Ok(m) => m,
        Err(e) => {
            return Err(e);
        },
    };
    proof {
        if widths_fit(huff_maps.offsets.spec_map()) && widths_fit(huff_maps.lengths.spec_map()) {
            lemma_all_tokens_some(lzss, huff_maps);
        }
    }
    let r = write_file(method, &lzss, &huff_maps);
    proof {
        if r is Ok {
            let bytes = r->Ok_0;
            let h = VpkHeader { size: input@.len() as u32, method };
            let c = file_content(h, lzss.buf@, huff_maps)->Some_0;
            assert(encoded_from_with(bytes@, input@, method, settings, lzss.buf@, huff_maps));
            crate::roundtrip::lemma_decode_encoded(bytes@, input@, method, settings);
        }
    }
    r
}

/// With maps built from the histograms, every token of the pass has bits.
proof fn lemma_all_tokens_some(pass: LzssPass, maps: EncodedMaps)
    requires
        pass.wf(),
        all_values_fit(pass.buf@),
        maps.offsets.wf(),
        maps.lengths.wf(),
        widths_fit(maps.offsets.spec_map()),
        widths_fit(maps.lengths.spec_map()),
        forall|w: int| 0 <= w < HIST_LEN && pass.moveback_bitfreq@[w] > 0 ==> #[trigger] maps.offsets.spec_map()[w] is Some,
        forall|w: int| 0 <= w < HIST_LEN && pass.size_bitfreq@[w] > 0 ==> #[trigger] maps.lengths.spec_map()[w] is Some,
    ensures
        body_bits(pass.buf@, maps.offsets.spec_map(), maps.lengths.spec_map()) is Some,
{
    let toks = pass.buf@;
    let om = maps.offsets.spec_map();
    let lm = maps.lengths.spec_map();
    vstd::arithmetic::power2::lemma2_to64();
    assert forall|i: int| 0 <= i < toks.len() implies #[trigger] token_bits(toks[i], om, lm) is Some by {
        let t = toks[i];
        assert(lzss::values_fit(t));
        match t {
            LzssByte::Uncoded(_) => {},
            LzssByte::Encoded(l, o) => {
                lemma_bit_width_le(l as nat, 32);
                lemma_bit_width_le(o as nat, 32);
                lzss::lemma_count_includes(toks, i, bit_width(l as nat), false);
                lzss::lemma_count_includes(toks, i, bit_width(o as nat), true);
                lemma_value_some(l as nat, maps.lengths, pass.size_bitfreq@);
                lemma_value_some(o as nat, maps.offsets, pass.moveback_bitfreq@);
            },
            LzssByte::EncTwoSample(l, ts) => {
                lemma_bit_width_le(l as nat, 32);
                lzss::lemma_count_includes(toks, i, bit_width(l as nat), false);
                lemma_value_some(l as nat, maps.lengths, pass.size_bitfreq@);
                lzss::lemma_count_includes(toks, i, bit_width(l as nat), false);
                match ts {
                    TwoSample::One(q) => {
                        lemma_bit_width_le(q as nat, 32);
                        lzss::lemma_count_includes(toks, i, bit_width(q as nat), true);
                        lemma_value_some(q as nat, maps.offsets, pass.moveback_bitfreq@);
                    },
                    TwoSample::Two { first, second } => {
                        lemma_bit_width_le(first as nat, 32);
                        lemma_bit_width_le(second as nat, 32);
                        lzss::lemma_count_includes(toks, i, bit_width(first as nat), true);
                        lzss::lemma_count_includes(toks, i, bit_width(second as nat), true);
                        lemma_value_some(first as nat, maps.offsets, pass.moveback_bitfreq@);
                        lemma_value_some(second as nat, maps.offsets, pass.moveback_bitfreq@);
                    },
                }
            },
        }
    }
    lemma_body_some(toks, om, lm);
}

/// A copy of `l` bytes adds `l` bytes.
proof fn lemma_copy_back_len(o: Seq<u8>, off: nat, l: nat)
    ensures
        crate::decode::copy_back(o, off, l).len() == o.len() + l,
    decreases l,
{
    if l > 0 {
        lemma_copy_back_len(o, off, (l - 1) as nat);
    }
}

/// Each allowed token stands for at least one byte, so there are no more
/// tokens than bytes.
proof fn lemma_tokens_cover(toks: Seq<LzssByte>, settings: LzssSettings, method: VpkMethod)
    requires
        tokens_ok(toks, settings, method),
    ensures
        toks.len() <= expand(toks).len(),
    decreases toks.len(),
{
    if toks.len() > 0 {
        let init = toks.drop_last();
        assert forall|i: int| 0 <= i < init.len() implies lzss::token_ok(#[trigger] init[i], settings, method) by {
            assert(init[i] == toks[i]);
        }
        lemma_tokens_cover(init, settings, method);
        assert(lzss::token_ok(toks[toks.len() - 1], settings, method));
        match toks.last() {
            LzssByte::Uncoded(_) => {},
            LzssByte::Encoded(l, off) => {
                lemma_copy_back_len(expand(init), off as nat, l as nat);
            },
            LzssByte::EncTwoSample(l, ts) => {
                lemma_copy_back_len(expand(init), ts.spec_offset() as nat, l as nat);
            },
        }
    }
}

/// `bytes` is a file of `input`: a header with its size and the method,
/// trees, and a body of tokens that the settings allow and that expand to
/// `input`.
pub open spec fn encoded_from_with(
    bytes: Seq<u8>,
    input: Seq<u8>,
    method: VpkMethod,
    settings: LzssSettings,
    toks: Seq<LzssByte>,
    trees: EncodedMaps,
) -> bool {
    &&& input.len() <= u32::MAX
    &&& expand(toks) == input
    &&& tokens_ok(toks, settings, method)
    &&& lzss::refs_ok(toks)
    &&& trees.offsets.wf()
    &&& trees.lengths.wf()
    &&& trees.offsets.sound()
    &&& trees.lengths.sound()
    &&& file_content(VpkHeader { size: input.len() as u32, method }, toks, trees) matches Some(c)
        && file_bits_ok(bytes, c)
}

/// `bytes` is a file of `input` for some tokens and code maps.
pub open spec fn encoded_from(bytes: Seq<u8>, input: Seq<u8>, method: VpkMethod, settings: LzssSettings) -> bool {
    exists|toks: Seq<LzssByte>, trees: EncodedMaps|
        encoded_from_with(bytes, input, method, settings, toks, trees)
}

/// The settings of an encoding: input, method, LZSS parameters, search
/// algorithm and optional textual trees.
///
/// By default: one sample, the settings (16, 8, 2), brute-force search and
/// trees built from the data.
pub struct EncoderBuilder {
    rdr: Vec<u8>,
    method: VpkMethod,
    settings: LzssSettings,
    backend: LzssBackend,
    offsets: Option<String>,
    lengths: Option<String>,
}

impl EncoderBuilder {
    pub closed spec fn spec_input(&self) -> Seq<u8> {
        self.rdr@
    }

    pub closed spec fn spec_method(&self) -> VpkMethod {
        self.method
    }

    pub closed spec fn spec_settings(&self) -> LzssSettings {
        self.settings
    }

    pub closed spec fn spec_backend(&self) -> LzssBackend {
        self.backend
    }

    /// The offset tree text, if one was given.
    pub closed spec fn spec_offsets(&self) -> Option<Seq<char>> {
        match self.offsets {
            Some(s) => Some(s@),
            None => None,
        }
    }

    /// The length tree text, if one was given.
    pub closed spec fn spec_lengths(&self) -> Option<Seq<char>> {
        match self.lengths {
            Some(s) => Some(s@),
            None => None,
        }
    }

    /// All but the input, method and settings stay as they were.
    pub open spec fn same_trees(&self, o: &Self) -> bool {
        &&& self.spec_backend() == o.spec_backend()
        &&& self.spec_offsets() == o.spec_offsets()
        &&& self.spec_lengths() == o.spec_lengths()
    }

    /// The LZSS parameters in use.
    pub fn lzss_settings(&self) -> (r: LzssSettings)
        ensures
            r == self.spec_settings(),
    {
        self.settings
    }

    /// A builder for the bytes that a reader yielded.
    pub fn for_reader(rdr: Vec<u8>) -> (r: Self)
        ensures
            r.spec_input() == rdr@,
            r.spec_method() == VpkMethod::OneSample,
            r.spec_settings() == (LzssSettings { offset_bits: 16, length_bits: 8, max_uncoded: 2 }),
            r.spec_backend() == LzssBackend::Brute,
            r.spec_offsets() is None,
            r.spec_lengths() is None,
    {
        EncoderBuilder {
            rdr,
            method: VpkMethod::OneSample,
            settings: LzssSettings::default(),
            backend: LzssBackend::Brute,
            offsets: None,
            lengths: None,
        }
    }

    /// A builder for a copy of `bytes`.
    pub fn for_bytes(bytes: &[u8]) -> (r: Self)
        ensures
            r.spec_input() == bytes@,
            r.spec_method() == VpkMethod::OneSample,
            r.spec_settings() == (LzssSettings { offset_bits: 16, length_bits: 8, max_uncoded: 2 }),
            r.spec_backend() == LzssBackend::Brute,
            r.spec_offsets() is None,
            r.spec_lengths() is None,
    {
        Self::for_reader(vstd::slice::slice_to_vec(bytes))
    }

    /// Sets one-sample or two-sample offsets.
    pub fn method(&mut self, method: VpkMethod) -> (r: &mut Self)
        ensures
            r.spec_method() == method,
            r.spec_input() == old(self).spec_input(),
            r.spec_settings() == old(self).spec_settings(),
            r.same_trees(old(self)),
            *final(self) == *final(r),
    {
        self.method = method;
        self
    }

    pub fn one_sample(&mut self) -> (r: &mut Self)
        ensures
            r.spec_method() == VpkMethod::OneSample,
            r.spec_input() == old(self).spec_input(),
            r.spec_settings() == old(self).spec_settings(),
            r.same_trees(old(self)),
            *final(self) == *final(r),
    {
        self.method = VpkMethod::OneSample;
        self
    }

    pub fn two_sample(&mut self) -> (r: &mut Self)
        ensures
            r.spec_method() == VpkMethod::TwoSample,
            r.spec_input() == old(self).spec_input(),
            r.spec_settings() == old(self).spec_settings(),
            r.same_trees(old(self)),
            *final(self) == *final(r),
    {
        self.method = VpkMethod::TwoSample;
        self
    }

    /// Sets the LZSS parameters.
    pub fn with_lzss_settings(&mut self, settings: LzssSettings) -> (r: &mut Self)
        ensures
            r.spec_settings() == settings,
            r.spec_input() == old(self).spec_input(),
            r.spec_method() == old(self).spec_method(),
            r.same_trees(old(self)),
            *final(self) == *final(r),
    {
        self.settings = settings;
        self
    }

    /// Sets the search algorithm.
    pub fn lzss_backend(&mut self, backend: LzssBackend) -> (r: &mut Self)
        ensures
            r.spec_backend() == backend,
            r.spec_input() == old(self).spec_input(),
            r.spec_method() == old(self).spec_method(),
            r.spec_settings() == old(self).spec_settings(),
            r.spec_offsets() == old(self).spec_offsets(),
            r.spec_lengths() == old(self).spec_lengths(),
            *final(self) == *final(r),
    {
        self.backend = backend;
        self
    }

    /// Uses the textual offset tree `o`, such as `(3, (7, 10))`; encoding
    /// fails when an offset is wider than every leaf of it.
    pub fn with_offsets(&mut self, o: &str) -> (r: &mut Self)
        ensures
            r.spec_offsets() == Some(o@),
            r.spec_input() == old(self).spec_input(),
            r.spec_method() == old(self).spec_method(),
            r.spec_settings() == old(self).spec_settings(),
            r.spec_backend() == old(self).spec_backend(),
            r.spec_lengths() == old(self).spec_lengths(),
            *final(self) == *final(r),
    {
        self.offsets = Some(String::from_str(o));
        self
    }

    /// Uses the offset tree `offsets` when given, else builds it from the data.
    pub fn optional_offsets(&mut self, offsets: Option<&str>) -> (r: &mut Self)
        ensures
            r.spec_offsets() == (match offsets {
                Some(o) => Some(o@),
                None => None,
            }),
            r.spec_input() == old(self).spec_input(),
            r.spec_method() == old(self).spec_method(),
            r.spec_settings() == old(self).spec_settings(),
            r.spec_backend() == old(self).spec_backend(),
            r.spec_lengths() == old(self).spec_lengths(),
            *final(self) == *final(r),
    {
        self.offsets = match offsets {
            Some(o) => Some(String::from_str(o)),
            None => None,
        };
        self
    }

    /// Uses the textual length tree `l`; encoding fails when a length is
    /// wider than every leaf of it.
    pub fn with_lengths(&mut self, l: &str) -> (r: &mut Self)
        ensures
            r.spec_lengths() == Some(l@),
            r.spec_input() == old(self).spec_input(),
            r.spec_method() == old(self).spec_method(),
            r.spec_settings() == old(self).spec_settings(),
            r.spec_backend() == old(self).spec_backend(),
            r.spec_offsets() == old(self).spec_offsets(),
            *final(self) == *final(r),
    {
        self.lengths = Some(String::from_str(l));
        self
    }

    /// Uses the length tree `lengths` when given, else builds it from the data.
    pub fn optional_lengths(&mut self, lengths: Option<&str>) -> (r: &mut Self)
        ensures
            r.spec_lengths() == (match lengths {
                Some(l) => Some(l@),
                None => None,
            }),
            r.spec_input() == old(self).spec_input(),
            r.spec_method() == old(self).spec_method(),
            r.spec_settings() == old(self).spec_settings(),
            r.spec_backend() == old(self).spec_backend(),
            r.spec_offsets() == old(self).spec_offsets(),
            *final(self) == *final(r),
    {
        self.lengths = match lengths {
            Some(l) => Some(String::from_str(l)),
            None => None,
        };
        self
    }

    /// Encodes the input and appends the file to `wtr`.
    pub fn encode_to_writer(&mut self, wtr: &mut Vec<u8>) -> (r: Result<(), VpkError>)
        requires
            old(self).spec_settings().wf(),
        ensures
            *final(self) == *old(self),
            exists|res: Result<Seq<u8>, VpkError>|
                encode_result(
                    old(self).spec_input(),
                    old(self).spec_method(),
                    old(self).spec_settings(),
                    old(self).spec_backend(),
                    old(self).spec_offsets(),
                    old(self).spec_lengths(),
                    res,
                ) && (res matches Ok(b) ==> r is Ok && final(wtr)@ == old(wtr)@ + b) && (res matches Err(
                    e,
                ) ==> r == Err::<(), VpkError>(e) && final(wtr)@ == old(wtr)@),
    {
        let bytes = match self.encode_to_vec() {
            Ok(b) => b,
            Err(e) => {
                return Err(e);
            },
        };
        let ghost b = bytes@;
        let mut bytes = bytes;
        wtr.append(&mut bytes);
        Ok(())
    }

    /// Encodes the input into a new `vpk0` file.
    pub fn encode_to_vec(&mut self) -> (r: Result<Vec<u8>, VpkError>)
        requires
            old(self).spec_settings().wf(),
        ensures
            *final(self) == *old(self),
            encode_result(
                old(self).spec_input(),
                old(self).spec_method(),
                old(self).spec_settings(),
                old(self).spec_backend(),
                old(self).spec_offsets(),
                old(self).spec_lengths(),
                result_view(r),
            ),
    {
        let offsets = match &self.offsets {
            Some(s) => Some(s.as_str()),
            None => None,
        };
        let lengths = match &self.lengths {
            Some(s) => Some(s.as_str()),
            None => None,
        };
        do_encode(self.rdr.as_slice(), self.method, self.settings, self.backend, offsets, lengths)
    }
}

/// Compresses `input` into a `vpk0` file with the default settings.
pub fn encode(input: &[u8]) -> (r: Result<Vec<u8>, VpkError>)
    ensures
        encode_result(
            input@,
            VpkMethod::OneSample,
            LzssSettings { offset_bits: 16, length_bits: 8, max_uncoded: 2 },
            LzssBackend::Brute,
            None,
            None,
            result_view(r),
        ),
{
    EncoderBuilder::for_bytes(input).encode_to_vec()
}

} // verus!
