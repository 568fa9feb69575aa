//! Decompression: header, the two trees, then literals and back-references
//! until the announced size is reached.
use vstd::prelude::*;
use vstd::slice::slice_to_vec;

use crate::bits::{stream_bits, BitReader};
use crate::errors::VpkError;
use crate::format::{
    bits_value, header_error, header_of, header_valid, parse_tree, render_tree, tree_value,
    TreeEntry, VpkHeader, VpkMethod, VpkTree,
};

verus! {

/// Textual forms of the offset and length trees of a `vpk0` file, such as
/// `((4, 1), (8, (15, 10)))`; a left branch is `0` and a right one `1`.
#[derive(Debug, Clone, PartialEq, Eq)]
pub struct TreeInfo {
    pub offsets: String,
    pub lengths: String,
}

/// `out` after copying `len` bytes one at a time from `offset` bytes back,
/// so that a copy may overlap the bytes it produces.
pub open spec fn copy_back(out: Seq<u8>, offset: nat, len: nat) -> Seq<u8>
    decreases len,
{
    if len == 0 {
        out
    } else {
        let o = copy_back(out, offset, (len - 1) as nat);
        o.push(o[o.len() - offset])
    }
}

/// The offset of a back-reference and the position after it. With two
/// samples a first value `u` below 3 is followed by a second `v`, giving
/// `u + 1 + 4v - 8`; otherwise the offset is `4u - 8`.
pub open spec fn offset_read(method: VpkMethod, ot: Seq<TreeEntry>, bits: Seq<bool>, pos: int) -> Result<(int, int), VpkError> {
    match tree_value(ot, bits, pos) {
        Err(x) => Err(x),
        Ok((u, pos1)) => match method {
            VpkMethod::OneSample => Ok((u as int, pos1)),
            VpkMethod::TwoSample => {
                if u < 3 {
                    match tree_value(ot, bits, pos1) {
                        Err(x) => Err(x),
                        Ok((v, pos2)) => Ok((u + 1 + 4 * v - 8, pos2)),
                    }
                } else {
                    Ok((4 * u - 8, pos1))
                }
            },
        },
    }
}

/// One token of the body at `pos`: a `0` bit and a literal byte, or a `1`
/// bit, an offset and a length. Gives the output after it and the position
/// after it. An offset below one is reported as 0.
pub open spec fn decode_step(
    method: VpkMethod,
    ot: Seq<TreeEntry>,
    lt: Seq<TreeEntry>,
    bits: Seq<bool>,
    pos: int,
    out: Seq<u8>,
) -> Result<(Seq<u8>, int), VpkError> {
    if pos < 0 || pos >= bits.len() {
        Err(VpkError::Io)
    } else if !bits[pos] {
        if pos + 9 > bits.len() {
            Err(VpkError::Io)
        } else {
            Ok((out.push(bits_value(bits.subrange(pos + 1, pos + 9)) as u8), pos + 9))
        }
    } else {
        match offset_read(method, ot, bits, pos + 1) {
            Err(x) => Err(x),
            Ok((off, pos2)) => {
                if off < 1 || off > out.len() {
                    Err(
                        VpkError::BadLookBack(
                            if off < 1 {
                                0usize
                            } else {
                                off as usize
                            },
                            out.len() as usize,
                        ),
                    )
                } else {
                    match tree_value(lt, bits, pos2) {
                        Err(x) => Err(x),
                        Ok((n, pos3)) => Ok((copy_back(out, off as nat, n), pos3)),
                    }
                }
            },
        }
    }
}

/// The body decoded from `pos` onward until the output holds `size` bytes;
/// a last copy that would run past the size stops at it.
pub open spec fn decode_body(
    method: VpkMethod,
    ot: Seq<TreeEntry>,
    lt: Seq<TreeEntry>,
    bits: Seq<bool>,
    pos: int,
    out: Seq<u8>,
    size: nat,
) -> Result<Seq<u8>, VpkError>
    decreases bits.len() - pos,
{
    if out.len() >= size {
        Ok(out.subrange(0, size as int))
    } else {
        match decode_step(method, ot, lt, bits, pos, out) {
            Err(x) => Err(x),
            Ok((o, p)) => {
                if pos < p <= bits.len() {
                    decode_body(method, ot, lt, bits, p, o, size)
                } else {
                    Err(VpkError::Io)
                }
            },
        }
    }
}

/// A decoded body holds exactly `size` bytes.
pub proof fn lemma_body_size(
    method: VpkMethod,
    ot: Seq<TreeEntry>,
    lt: Seq<TreeEntry>,
    bits: Seq<bool>,
    pos: int,
    out: Seq<u8>,
    size: nat,
)
    ensures
        decode_body(method, ot, lt, bits, pos, out, size) matches Ok(o) ==> o.len() == size,
    decreases bits.len() - pos,
{
    if out.len() < size {
        if let Ok((o, p)) = decode_step(method, ot, lt, bits, pos, out) {
            if pos < p <= bits.len() {
                lemma_body_size(method, ot, lt, bits, p, o, size);
            }
        }
    }
}

/// The two trees after the header: offsets, lengths, and the position after them.
pub open spec fn trees_of(bits: Seq<bool>) -> Option<(Seq<TreeEntry>, Seq<TreeEntry>, int)> {
    match parse_tree(bits, 72, Seq::empty(), Seq::empty()) {
        None => None,
        Some((ot, q1)) => match parse_tree(bits, q1, Seq::empty(), Seq::empty()) {
            None => None,
            Some((lt, q2)) => Some((ot, lt, q2)),
        },
    }
}

/// What follows a valid header in `d`: the decoded bytes, or the error.
pub open spec fn decode_payload(h: VpkHeader, d: Seq<u8>) -> Result<Seq<u8>, VpkError> {
    let bits = stream_bits(d);
    match trees_of(bits) {
        None => Err(VpkError::Io),
        Some((ot, lt, q)) => decode_body(h.method, ot, lt, bits, q, Seq::empty(), h.size as nat),
    }
}

/// `d` is a `vpk0` file whose body decodes to `out`.
pub open spec fn decodes_to(d: Seq<u8>, out: Seq<u8>) -> bool {
    &&& d.len() >= 9
    &&& header_valid(d.subrange(0, 9))
    &&& decode_payload(header_of(d.subrange(0, 9)), d) == Ok::<Seq<u8>, VpkError>(out)
}

/// The result of decoding all of `d`.
pub open spec fn decode_result(d: Seq<u8>, r: Result<Vec<u8>, VpkError>) -> bool {
    if d.len() < 9 {
        r == Err::<Vec<u8>, VpkError>(VpkError::Io)
    } else if !header_valid(d.subrange(0, 9)) {
        header_error(d.subrange(0, 9), r)
    } else {
        match decode_payload(header_of(d.subrange(0, 9)), d) {
            Ok(o) => (r matches Ok(v) && v@ == o),
            Err(x) => r == Err::<Vec<u8>, VpkError>(x),
        }
    }
}

/// Reads the header and both trees, leaving the reader after them.
fn read_info(bytes: &[u8]) -> (r: Result<(VpkHeader, VpkTree, VpkTree, BitReader), VpkError>)
    ensures
        bytes@.len() < 9 ==> r == Err::<(VpkHeader, VpkTree, VpkTree, BitReader), VpkError>(
            VpkError::Io,
        ),
        bytes@.len() >= 9 && !header_valid(bytes@.subrange(0, 9)) ==> header_error(
            bytes@.subrange(0, 9),
            r,
        ),
        bytes@.len() >= 9 && header_valid(bytes@.subrange(0, 9)) ==> match trees_of(
            stream_bits(bytes@),
        ) {
            None => r == Err::<(VpkHeader, VpkTree, VpkTree, BitReader), VpkError>(VpkError::Io),
            Some((ot, lt, q)) => (r matches Ok((h, o, l, rd)) && h == header_of(
                bytes@.subrange(0, 9),
            ) && o.entries@ == ot && l.entries@ == lt && o.wf() && l.wf() && rd.wf()
                && rd.data() == bytes@ && rd.pos() == q),
        },
{
    if bytes.len() < 9 {
        return Err(VpkError::Io);
    }
    let arr: [u8; 9] = [
        bytes[0],
        bytes[1],
        bytes[2],
        bytes[3],
        bytes[4],
        bytes[5],
        bytes[6],
        bytes[7],
        bytes[8],
    ];
    assert(arr@ =~= bytes@.subrange(0, 9));
    let hdr = match VpkHeader::from_array(&arr) {
        Ok(h) => h,
        Err(e) => {
            return Err(e);
        },
    };
    let mut rd = BitReader::new_at(slice_to_vec(bytes), 9);
    let offsets = match VpkTree::from_bitreader(&mut rd) {
        Ok(t) => t,
        Err(e) => {
            return Err(e);
        },
    };
    let lengths = match VpkTree::from_bitreader(&mut rd) {
        Ok(t) => t,
        Err(e) => {
            return Err(e);
        },
    };
    Ok((hdr, offsets, lengths, rd))
}

/// Decodes the body: literals and back-references until `header.size`
/// bytes are out; a last copy that runs past the size is cut at it.
#[verifier::rlimit(100)]
fn do_decode(header: VpkHeader, offsets: &VpkTree, lengths: &VpkTree, src: &mut BitReader) -> (r:
    Result<Vec<u8>, VpkError>)
    requires
        offsets.wf(),
        lengths.wf(),
        old(src).wf(),
    ensures
        match decode_body(
            header.method,
            offsets.entries@,
            lengths.entries@,
            stream_bits(old(src).data()),
            old(src).pos() as int,
            Seq::empty(),
            header.size as nat,
        ) {
            Ok(o) => (r matches Ok(v) && v@ == o),
            Err(x) => r == Err::<Vec<u8>, VpkError>(x),
        },
{
    let ghost all = stream_bits(src.data());
    let ghost ot = offsets.entries@;
    let ghost lt = lengths.entries@;
    let ghost goal = decode_body(
        header.method,
        ot,
        lt,
        all,
        src.pos() as int,
        Seq::empty(),
        header.size as nat,
    );
    let output_size = header.size as usize;
    let mut output: Vec<u8> = Vec::new();
    while output.len() < output_size
        invariant
            src.wf(),
            all == stream_bits(src.data()),
            all == stream_bits(old(src).data()),
            goal == decode_body(
                header.method,
                ot,
                lt,
                all,
                old(src).pos() as int,
                Seq::empty(),
                header.size as nat,
            ),
            offsets.wf(),
            lengths.wf(),
            ot == offsets.entries@,
            lt == lengths.entries@,
            output_size == header.size,
            goal == decode_body(
                header.method,
                ot,
                lt,
                all,
                src.pos() as int,
                output@,
                header.size as nat,
            ),
        decreases all.len() - src.pos(),
    {
        let ghost p = src.pos() as int;
        let ghost o0 = output@;
        assert(goal == decode_body(header.method, ot, lt, all, p, o0, header.size as nat));
        let step = decode_token(header.method, offsets, lengths, src, &mut output);
        match step {
            Err(e) => {
                assert(decode_step(header.method, ot, lt, all, p, o0) == Err::<(Seq<u8>, int), VpkError>(e));
                return Err(e);
            },
            Ok(()) => {},
        }
        assert(src.pos() <= all.len());
    }
    output.truncate(output_size);
    Ok(output)
}

/// Decodes one token, appending its bytes to `output`.
#[verifier::rlimit(100)]
fn decode_token(
    method: VpkMethod,
    offsets: &VpkTree,
    lengths: &VpkTree,
    src: &mut BitReader,
    output: &mut Vec<u8>,
) -> (r: Result<(), VpkError>)
    requires
        offsets.wf(),
        lengths.wf(),
        old(src).wf(),
    ensures
        final(src).wf(),
        final(src).data() == old(src).data(),
        match decode_step(
            method,
            offsets.entries@,
            lengths.entries@,
            stream_bits(old(src).data()),
            old(src).pos() as int,
            old(output)@,
        ) {
            Ok((o, q)) => r is Ok && final(output)@ == o && final(src).pos() == q && q > old(
                src,
            ).pos(),
            Err(x) => r == Err::<(), VpkError>(x),
        },
{
    let ghost all = stream_bits(src.data());
    let ghost p = src.pos() as int;
    let flag = match src.read_bit() {
        Ok(b) => b,
        Err(e) => {
            return Err(e);
        },
    };
    assert(flag == all[p]);
    if !flag {
        if !src.has_bits(8) {
            return Err(VpkError::Io);
        }
        let byte = match src.read_bits(8) {
            Ok(v) => v,
            Err(e) => {
                return Err(e);
            },
        };
        proof {
            crate::format::lemma_bits_value_of(byte as nat, 8);
        }
        output.push(byte as u8);
        return Ok(());
    }
    let initial_move = match offsets.read_value(src) {
        Ok(v) => v,
        Err(e) => {
            assert(offset_read(method, offsets.entries@, all, p + 1) == Err::<(int, int), VpkError>(e));
            return Err(e);
        },
    };
    let ghost pos1 = src.pos() as int;
    assert(tree_value(offsets.entries@, all, p + 1) == Ok::<(nat, int), VpkError>((initial_move as nat, pos1)));
    let move_back: u64 = match method {
        VpkMethod::TwoSample => {
            if initial_move < 3 {
                let u = match offsets.read_value(src) {
                    Ok(v) => v,
                    Err(e) => {
                        assert(offset_read(method, offsets.entries@, all, p + 1) == Err::<(int, int), VpkError>(e));
                        return Err(e);
                    },
                };
                assert(offset_read(method, offsets.entries@, all, p + 1) == Ok::<(int, int), VpkError>((initial_move + 1 + 4 * u - 8, src.pos() as int)));
                let raw = initial_move as u64 + 1 + 4 * (u as u64);
                if raw <= 8 {
                    return Err(VpkError::BadLookBack(0, output.len()));
                }
                raw - 8
            } else {
                assert(offset_read(method, offsets.entries@, all, p + 1) == Ok::<(int, int), VpkError>((4 * initial_move - 8, pos1)));
                4 * (initial_move as u64) - 8
            }
        },
        VpkMethod::OneSample => initial_move as u64,
    };
    let ghost pos2 = src.pos() as int;
    assert(offset_read(method, offsets.entries@, all, p + 1) == Ok::<(int, int), VpkError>((move_back as int, pos2)));
    if move_back == 0 {
        return Err(VpkError::BadLookBack(0, output.len()));
    }
    if move_back > output.len() as u64 {
        return Err(VpkError::BadLookBack(move_back as usize, output.len()));
    }
    let offset = move_back as usize;
    let size = match lengths.read_value(src) {
        Ok(v) => v,
        Err(e) => {
            return Err(e);
        },
    };
    let ghost start = output@;
    let mut k: u32 = 0;
    while k < size
        invariant
            k <= size,
            1 <= offset <= start.len(),
            output@ == copy_back(start, offset as nat, k as nat),
            output@.len() == start.len() + k,
        decreases size - k,
    {
        let byte = output[output.len() - offset];
        output.push(byte);
        k = k + 1;
    }
    Ok(())
}

/// Decompresses `vpk0` data.
pub fn decode(bytes: &[u8]) -> (r: Result<Vec<u8>, VpkError>)
    ensures
        decode_result(bytes@, r),
        r matches Ok(v) ==> bytes@.len() >= 9 && v@.len() == header_of(bytes@.subrange(0, 9)).size,
{
    proof {
        if bytes@.len() >= 9 {
            let bits = stream_bits(bytes@);
            if let Some((ot, lt, q)) = trees_of(bits) {
                let h = header_of(bytes@.subrange(0, 9));
                lemma_body_size(h.method, ot, lt, bits, q, Seq::empty(), h.size as nat);
            }
        }
    }
    let (header, offsets, lengths, mut src) = match read_info(bytes) {
        Ok(info) => info,
        Err(e) => {
            return Err(e);
        },
    };
    do_decode(header, &offsets, &lengths, &mut src)
}

/// The header and the textual forms of both trees of `vpk0` data, without
/// decoding its body.
pub fn vpk_info(bytes: &[u8]) -> (r: Result<(VpkHeader, TreeInfo), VpkError>)
    ensures
        bytes@.len() < 9 ==> r == Err::<(VpkHeader, TreeInfo), VpkError>(VpkError::Io),
        bytes@.len() >= 9 && !header_valid(bytes@.subrange(0, 9)) ==> header_error(
            bytes@.subrange(0, 9),
            r,
        ),
        bytes@.len() >= 9 && header_valid(bytes@.subrange(0, 9)) ==> match trees_of(
            stream_bits(bytes@),
        ) {
            None => r == Err::<(VpkHeader, TreeInfo), VpkError>(VpkError::Io),
            Some((ot, lt, q)) => (r matches Ok((h, t)) && h == header_of(bytes@.subrange(0, 9))
                && t.offsets@ == render_tree(ot) && t.lengths@ == render_tree(lt)),
        },
{
    let (header, offsets, lengths, _src) = match read_info(bytes) {
        Ok(info) => info,
        Err(e) => {
            return Err(e);
        },
    };
    let info = TreeInfo { offsets: offsets.to_text(), lengths: lengths.to_text() };
    Ok((header, info))
}

} // verus!
