//! Decoding what the encoder wrote gives the input back.
use vstd::prelude::*;

use crate::bits::{nat_bits, stream_bits};
use crate::decode::{copy_back, decode_body, decodes_to, decode_payload, decode_step, offset_read, trees_of};
use crate::encode::huffman::{code_map_ok, flat, lemma_parse_flat, map_matches, HuffCode};
use crate::encode::lzss::{
    apply_token, expand, lemma_settings_bounds, refs_ok, token_offset, token_ok, tokens_ok,
    LzssByte, LzssSettings,
};
use crate::encode::{
    bit_width, body_bits, encoded_from, encoded_from_with, file_content, lemma_bit_width_fits,
    lemma_two_sample_round_trip, token_bits, value_bits, TwoSample,
};
use crate::format::{
    entries_bits, header_bits, header_of, header_valid, lemma_bits_value_of,
    lemma_header_from_bits, lemma_walk_code, parse_tree, tree_bits, tree_value, TreeEntry,
    VpkHeader, VpkMethod,
};

verus! {

/// A part of a prefix of `all` is the same part of the prefix.
proof fn lemma_sub(all: Seq<bool>, c: Seq<bool>, a: int, b: int)
    requires
        c.len() <= all.len(),
        all.subrange(0, c.len() as int) == c,
        0 <= a <= b <= c.len(),
    ensures
        all.subrange(a, b) == c.subrange(a, b),
{
    assert forall|i: int| 0 <= i < b - a implies all.subrange(a, b)[i] == c.subrange(a, b)[i] by {
        assert(all.subrange(0, c.len() as int)[a + i] == c[a + i]);
    }
    assert(all.subrange(a, b) =~= c.subrange(a, b));
}

/// The bits that write a value with a sound code map read back as the value.
#[verifier::rlimit(100)]
proof fn lemma_value_decodes(e: Seq<TreeEntry>, map: Seq<Option<(u8, HuffCode)>>, val: nat, bits: Seq<bool>, pos: int)
    requires
        code_map_ok(map),
        map_matches(map, e),
        value_bits(val, map) is Some,
        0 <= pos,
        pos + value_bits(val, map)->Some_0.len() <= bits.len(),
        bits.subrange(pos, pos + value_bits(val, map)->Some_0.len()) == value_bits(val, map)->Some_0,
    ensures
        tree_value(e, bits, pos) == Ok::<(nat, int), crate::errors::VpkError>((val, pos + value_bits(val, map)->Some_0.len())),
{
    let vb = value_bits(val, map)->Some_0;
    let w = bit_width(val);
    let (ew, c) = map[w as int]->Some_0;
    let cb = c.bits();
    assert(vb == cb + nat_bits(val, ew as nat));
    assert(bits.subrange(pos, pos + cb.len()) =~= cb) by {
        assert forall|i: int| 0 <= i < cb.len() implies #[trigger] bits[pos + i] == cb[i] by {
            assert(bits.subrange(pos, pos + vb.len())[i] == vb[i]);
        }
    }
    let l = crate::format::code_leads_to(e, e.len() - 1, cb)->Some_0;
    lemma_walk_code(e, e.len() - 1, cb, bits, pos);
    let p = pos + cb.len();
    assert(vb.subrange(cb.len() as int, cb.len() + ew) =~= nat_bits(val, ew as nat));
    lemma_part(bits, pos, vb, cb.len() as int, nat_bits(val, ew as nat));
    lemma_bit_width_fits(val);
    if w < ew {
        vstd::arithmetic::power2::lemma_pow2_strictly_increases(w, ew as nat);
    }
    lemma_bits_value_of(val, ew as nat);
}

/// The bits of a token read back as one decoding step that applies it.
#[verifier::rlimit(100)]
proof fn lemma_token_decodes(
    method: VpkMethod,
    settings: LzssSettings,
    ot: Seq<TreeEntry>,
    lt: Seq<TreeEntry>,
    om: Seq<Option<(u8, HuffCode)>>,
    lm: Seq<Option<(u8, HuffCode)>>,
    t: LzssByte,
    bits: Seq<bool>,
    pos: int,
    out: Seq<u8>,
)
    requires
        settings.wf(),
        code_map_ok(om),
        code_map_ok(lm),
        map_matches(om, ot),
        map_matches(lm, lt),
        token_ok(t, settings, method),
        token_bits(t, om, lm) is Some,
        0 <= pos,
        pos + token_bits(t, om, lm)->Some_0.len() <= bits.len(),
        bits.subrange(pos, pos + token_bits(t, om, lm)->Some_0.len()) == token_bits(t, om, lm)->Some_0,
        token_offset(t) <= out.len(),
    ensures
        decode_step(method, ot, lt, bits, pos, out) == Ok::<(Seq<u8>, int), crate::errors::VpkError>(
            (apply_token(out, t), pos + token_bits(t, om, lm)->Some_0.len()),
        ),
{
    let tb = token_bits(t, om, lm)->Some_0;
    assert(bits[pos] == tb[0]) by {
        assert(bits.subrange(pos, pos + tb.len())[0] == tb[0]);
    }
    lemma_settings_bounds(settings);
    match t {
        LzssByte::Uncoded(b) => {
            assert(tb == seq![false] + nat_bits(b as nat, 8));
            assert(tb.subrange(1, 9) =~= nat_bits(b as nat, 8));
            lemma_part(bits, pos, tb, 1, nat_bits(b as nat, 8));
            vstd::arithmetic::power2::lemma2_to64();
            lemma_bits_value_of(b as nat, 8);
        },
        LzssByte::Encoded(l, o) => {
            lemma_ref_decodes(method, settings, ot, lt, om, lm, t, bits, pos, out);
        },
        LzssByte::EncTwoSample(l, ts) => {
            lemma_ref_decodes(method, settings, ot, lt, om, lm, t, bits, pos, out);
        },
    }
}

/// The bits of a back-reference read back as a step that copies.
#[verifier::rlimit(100)]
proof fn lemma_ref_decodes(
    method: VpkMethod,
    settings: LzssSettings,
    ot: Seq<TreeEntry>,
    lt: Seq<TreeEntry>,
    om: Seq<Option<(u8, HuffCode)>>,
    lm: Seq<Option<(u8, HuffCode)>>,
    t: LzssByte,
    bits: Seq<bool>,
    pos: int,
    out: Seq<u8>,
)
    requires
        settings.wf(),
        !(t is Uncoded),
        code_map_ok(om),
        code_map_ok(lm),
        map_matches(om, ot),
        map_matches(lm, lt),
        token_ok(t, settings, method),
        token_bits(t, om, lm) is Some,
        0 <= pos,
        pos + token_bits(t, om, lm)->Some_0.len() <= bits.len(),
        bits.subrange(pos, pos + token_bits(t, om, lm)->Some_0.len()) == token_bits(t, om, lm)->Some_0,
        token_offset(t) <= out.len(),
    ensures
        decode_step(method, ot, lt, bits, pos, out) == Ok::<(Seq<u8>, int), crate::errors::VpkError>(
            (apply_token(out, t), pos + token_bits(t, om, lm)->Some_0.len()),
        ),
{
    let tb = token_bits(t, om, lm)->Some_0;
    assert(bits[pos] == tb[0]) by {
        assert(bits.subrange(pos, pos + tb.len())[0] == tb[0]);
    }
    lemma_settings_bounds(settings);
    match t {
        LzssByte::Encoded(l, o) => {
            let vo = value_bits(o as nat, om)->Some_0;
            let vl = value_bits(l as nat, lm)->Some_0;
            assert(tb == seq![true] + vo + vl);
            assert(tb.subrange(1, 1 + (vo.len() as int)) =~= vo);
            assert(tb.subrange(1 + (vo.len() as int), 1 + (vo.len() as int) + (vl.len() as int)) =~= vl);
            lemma_part(bits, pos, tb, 1, vo);
            lemma_value_decodes(ot, om, o as nat, bits, pos + 1);
            lemma_part(bits, pos, tb, (1 + vo.len()) as int, vl);
            lemma_value_decodes(lt, lm, l as nat, bits, pos + 1 + vo.len());
            assert(offset_read(method, ot, bits, pos + 1) == Ok::<(int, int), crate::errors::VpkError>((o as int, pos + 1 + vo.len())));
        },
        LzssByte::EncTwoSample(l, ts) => {
            lemma_two_sample_round_trip(ts.spec_offset() as nat);
            let vl = value_bits(l as nat, lm)->Some_0;
            match ts {
                TwoSample::One(q) => {
                    let vq = value_bits(q as nat, om)->Some_0;
                    assert(tb == seq![true] + vq + vl);
                    assert(tb.subrange(1, 1 + (vq.len() as int)) =~= vq);
                    assert(tb.subrange(1 + (vq.len() as int), 1 + (vq.len() as int) + (vl.len() as int)) =~= vl);
                    lemma_part(bits, pos, tb, 1, vq);
                    lemma_value_decodes(ot, om, q as nat, bits, pos + 1);
                    lemma_part(bits, pos, tb, (1 + vq.len()) as int, vl);
                    lemma_value_decodes(lt, lm, l as nat, bits, pos + 1 + vq.len());
                    assert(offset_read(method, ot, bits, pos + 1) == Ok::<(int, int), crate::errors::VpkError>((ts.spec_offset(), pos + 1 + vq.len())));
                },
                TwoSample::Two { first, second } => {
                    let vf = value_bits(first as nat, om)->Some_0;
                    let vs = value_bits(second as nat, om)->Some_0;
                    assert(tb == seq![true] + vf + vs + vl);
                    assert(tb.subrange(1, 1 + (vf.len() as int)) =~= vf);
                    assert(tb.subrange(1 + (vf.len() as int), 1 + (vf.len() as int) + (vs.len() as int)) =~= vs);
                    assert(tb.subrange(1 + (vf.len() as int) + (vs.len() as int), 1 + (vf.len() as int) + (vs.len() as int) + (vl.len() as int)) =~= vl);
                    lemma_part(bits, pos, tb, 1, vf);
                    lemma_value_decodes(ot, om, first as nat, bits, pos + 1);
                    lemma_part(bits, pos, tb, (1 + vf.len()) as int, vs);
                    lemma_value_decodes(ot, om, second as nat, bits, pos + 1 + vf.len());
                    lemma_part(bits, pos, tb, (1 + vf.len() + vs.len()) as int, vl);
                    lemma_value_decodes(lt, lm, l as nat, bits, pos + 1 + vf.len() + vs.len());
                    assert(offset_read(method, ot, bits, pos + 1) == Ok::<(int, int), crate::errors::VpkError>((ts.spec_offset(), pos + 1 + vf.len() + vs.len())));
                },
            }
        },
        _ => {},
    }
}

/// A part of a run of bits that sits at `pos`.
proof fn lemma_part(bits: Seq<bool>, pos: int, whole: Seq<bool>, at: int, part: Seq<bool>)
    requires
        0 <= pos,
        pos + whole.len() <= bits.len(),
        bits.subrange(pos, pos + whole.len()) == whole,
        0 <= at,
        at + part.len() <= whole.len(),
        whole.subrange(at, at + part.len()) == part,
    ensures
        bits.subrange(pos + at, pos + at + part.len()) == part,
{
    assert forall|i: int| 0 <= i < part.len() implies #[trigger] bits.subrange(pos + at, pos + at + part.len())[i] == part[i] by {
        assert(bits.subrange(pos, pos + whole.len())[at + i] == whole[at + i]);
        assert(whole.subrange(at, at + part.len())[i] == whole[at + i]);
    }
    assert(bits.subrange(pos + at, pos + at + part.len()) =~= part);
}

/// An allowed token adds at least one byte.
proof fn lemma_apply_grows(o: Seq<u8>, t: LzssByte, settings: LzssSettings, method: VpkMethod)
    requires
        token_ok(t, settings, method),
    ensures
        apply_token(o, t).len() > o.len(),
{
    match t {
        LzssByte::Uncoded(_) => {},
        LzssByte::Encoded(l, off) => {
            lemma_copy_back_len(o, off as nat, l as nat);
        },
        LzssByte::EncTwoSample(l, ts) => {
            lemma_copy_back_len(o, ts.spec_offset() as nat, l as nat);
        },
    }
}

proof fn lemma_copy_back_len(o: Seq<u8>, off: nat, l: nat)
    ensures
        copy_back(o, off, l).len() == o.len() + l,
    decreases l,
{
    if l > 0 {
        lemma_copy_back_len(o, off, (l - 1) as nat);
    }
}

/// Decoding the bits of a token stream produces what the tokens expand to.
#[verifier::rlimit(100)]
proof fn lemma_body_decodes(
    method: VpkMethod,
    settings: LzssSettings,
    ot: Seq<TreeEntry>,
    lt: Seq<TreeEntry>,
    om: Seq<Option<(u8, HuffCode)>>,
    lm: Seq<Option<(u8, HuffCode)>>,
    toks: Seq<LzssByte>,
    bits: Seq<bool>,
    pos0: int,
    size: nat,
)
    requires
        settings.wf(),
        code_map_ok(om),
        code_map_ok(lm),
        map_matches(om, ot),
        map_matches(lm, lt),
        tokens_ok(toks, settings, method),
        refs_ok(toks),
        body_bits(toks, om, lm) is Some,
        0 <= pos0,
        pos0 + body_bits(toks, om, lm)->Some_0.len() <= bits.len(),
        bits.subrange(pos0, pos0 + body_bits(toks, om, lm)->Some_0.len()) == body_bits(toks, om, lm)->Some_0,
        expand(toks).len() <= size,
    ensures
        decode_body(method, ot, lt, bits, pos0, Seq::empty(), size) == decode_body(
            method,
            ot,
            lt,
            bits,
            pos0 + body_bits(toks, om, lm)->Some_0.len(),
            expand(toks),
            size,
        ),
    decreases toks.len(),
{
    if toks.len() > 0 {
        let init = toks.drop_last();
        let t = toks.last();
        let bb = body_bits(toks, om, lm)->Some_0;
        let bi = body_bits(init, om, lm)->Some_0;
        let tb = token_bits(t, om, lm)->Some_0;
        assert(bb == bi + tb);
        assert(token_ok(toks[toks.len() - 1], settings, method));
        assert forall|i: int| 0 <= i < init.len() implies token_ok(#[trigger] init[i], settings, method) by {
            assert(init[i] == toks[i]);
        }
        assert forall|i: int| 0 <= i < init.len() implies token_offset(#[trigger] init[i]) <= expand(init.subrange(0, i)).len() by {
            assert(init[i] == toks[i]);
            assert(init.subrange(0, i) =~= toks.subrange(0, i));
        }
        assert(toks.subrange(0, toks.len() - 1) =~= init);
        assert(token_offset(toks[toks.len() - 1]) <= expand(init).len());
        lemma_apply_grows(expand(init), t, settings, method);
        assert(bb.subrange(0, bi.len() as int) =~= bi);
        lemma_part(bits, pos0, bb, 0, bi);
        lemma_body_decodes(method, settings, ot, lt, om, lm, init, bits, pos0, size);
        assert(bb.subrange(bi.len() as int, (bi.len() + tb.len()) as int) =~= tb);
        lemma_part(bits, pos0, bb, bi.len() as int, tb);
        lemma_token_decodes(method, settings, ot, lt, om, lm, t, bits, pos0 + bi.len(), expand(init));
        assert(tb.len() >= 1) by {
            assert(tb[0] == bits[pos0 + bi.len()]);
        }
    }
}

/// A tree that is empty or a flattened sub-tree reads back from its wire bits.
#[verifier::rlimit(100)]
proof fn lemma_tree_parses(e: Seq<TreeEntry>, bits: Seq<bool>, pos: int)
    requires
        e.len() <= usize::MAX,
        e.len() == 0 || exists|n| e == flat(n, 0),
        0 <= pos,
        pos + tree_bits(e).len() <= bits.len(),
        bits.subrange(pos, pos + tree_bits(e).len()) == tree_bits(e),
    ensures
        parse_tree(bits, pos, Seq::empty(), Seq::empty()) == Some((e, pos + tree_bits(e).len())),
{
    let tb = tree_bits(e);
    let eb = entries_bits(e);
    assert(bits[pos + eb.len()] == true) by {
        assert(bits.subrange(pos, pos + tb.len())[eb.len() as int] == tb[eb.len() as int]);
    }
    if e.len() > 0 {
        let n = choose|n| e == flat(n, 0);
        assert(tb.subrange(0, eb.len() as int) =~= eb);
        lemma_part(bits, pos, tb, 0, eb);
        lemma_parse_flat(n, Seq::empty(), Seq::empty(), bits, pos);
        assert(Seq::<TreeEntry>::empty() + e =~= e);
    } else {
        assert(entries_bits(e) =~= Seq::<bool>::empty());
    }
}

/// Decoding the bytes that the encoder produced from `input` gives `input`
/// back: the header holds its size and the method, and the body decodes to
/// it.
#[verifier::rlimit(100)]
pub proof fn lemma_decode_encoded(bytes: Seq<u8>, input: Seq<u8>, method: VpkMethod, settings: LzssSettings)
    requires
        settings.wf(),
        encoded_from(bytes, input, method, settings),
    ensures
        decodes_to(bytes, input),
        header_of(bytes.subrange(0, 9)) == (VpkHeader { size: input.len() as u32, method }),
{
    let (toks, trees) = choose|toks: Seq<LzssByte>, trees: crate::encode::huffman::EncodedMaps|
        encoded_from_with(bytes, input, method, settings, toks, trees);
    let h = VpkHeader { size: input.len() as u32, method };
    let ot = trees.offsets.tree.entries@;
    let lt = trees.lengths.tree.entries@;
    let om = trees.offsets.spec_map();
    let lm = trees.lengths.spec_map();
    let bb = body_bits(toks, om, lm)->Some_0;
    let c = file_content(h, toks, trees)->Some_0;
    let hb = header_bits(h);
    let to = tree_bits(ot);
    let tl = tree_bits(lt);
    assert(c == hb + to + tl + bb);
    let all = stream_bits(bytes);
    assert(hb.len() == 72);
    // the header
    lemma_sub(all, c, 0, 72);
    assert(c.subrange(0, 72) =~= hb);
    assert(bytes.len() >= 9);
    lemma_header_from_bits(bytes, h);
    // the trees
    let q1 = (72 + to.len()) as int;
    let q2 = (q1 + tl.len()) as int;
    lemma_sub(all, c, 72, q1);
    assert(c.subrange(72, q1) =~= to);
    lemma_tree_parses(ot, all, 72);
    lemma_sub(all, c, q1, q2);
    assert(c.subrange(q1, q2) =~= tl);
    lemma_tree_parses(lt, all, q1);
    assert(trees_of(all) == Some((ot, lt, q2)));
    // the body
    lemma_sub(all, c, q2, (q2 + bb.len()) as int);
    assert(c.subrange(q2, (q2 + bb.len()) as int) =~= bb);
    lemma_body_decodes(method, settings, ot, lt, om, lm, toks, all, q2, input.len());
    assert(input.subrange(0, input.len() as int) =~= input);
}

} // verus!
