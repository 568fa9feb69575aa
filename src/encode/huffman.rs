//! Huffman codes for bit widths: building a tree from a histogram (with
//! leaves of close widths merged when that saves bits), reading a tree from
//! its textual form, and the map from each width to its code.
use smallvec::SmallVec;
use vstd::arithmetic::power2::pow2;
use vstd::prelude::*;
use vstd::std_specs::iter::IteratorSpec;

use crate::bits::nat_bits;
use crate::errors::{EncodeTreeParseErr, VpkError};
use crate::encode::lzss::{LzssPass, HIST_LEN};
use crate::format::{
    code_leads_to, decimal, digit_char, entries_bits, leaf_width, render, render_tree, entries_wf, lemma_bits_value_of, lemma_entries_bits_concat,
    parse_tree, TreeEntry, VpkTree,
};

verus! {

/// The lesser widths that a merged leaf also stands for, held in a
/// `SmallVec` (Verus cannot declare `SmallVec` itself: its `Array` bound is
/// an outside trait).
#[verifier::external_body]
pub struct Lessers {
    items: SmallVec<[u8; 8]>,
}

/// The widths a `Lessers` holds, in order.
pub uninterp spec fn lesser_items(v: Lessers) -> Seq<u8>;

/// Relies on `SmallVec::from_slice`: it holds the slice's items in order.
#[verifier::external_body]
fn lesser_from(s: &[u8]) -> (r: Lessers)
    ensures
        lesser_items(r) == s@,
{
    Lessers { items: SmallVec::from_slice(s) }
}

/// Relies on `SmallVec::extend_from_slice`: the items go to the end, in order.
#[verifier::external_body]
fn lesser_extend(v: &mut Lessers, s: &[u8])
    ensures
        lesser_items(*final(v)) == lesser_items(*old(v)) + s@,
{
    v.items.extend_from_slice(s)
}

/// Relies on `SmallVec::as_slice`: one slice of all items, in order.
#[verifier::external_body]
fn lesser_slice(v: &Lessers) -> (r: &[u8])
    ensures
        r@ == lesser_items(*v),
{
    v.items.as_slice()
}

/// A Huffman code of at most 31 bits, most significant bit first.
#[derive(Debug, Copy, Clone, PartialEq, Eq, Structural)]
pub struct HuffCode {
    pub code: u32,
    pub size: u8,
}

impl HuffCode {
    pub open spec fn wf(self) -> bool {
        self.size < 32 && (self.code as nat) < pow2(self.size as nat)
    }

    pub open spec fn spec_len(self) -> nat {
        self.size as nat
    }

    /// The bits of the code, first to last.
    pub open spec fn bits(self) -> Seq<bool> {
        nat_bits(self.code as nat, self.spec_len())
    }

    pub fn new() -> (r: Self)
        ensures
            r.wf(),
            r.spec_len() == 0,
            r.bits() == Seq::<bool>::empty(),
            r == (HuffCode { code: 0, size: 0 }),
    {
        proof {
            vstd::arithmetic::power2::lemma2_to64();
        }
        let r = HuffCode { code: 0, size: 0 };
        assert(r.bits() =~= Seq::<bool>::empty());
        r
    }

    pub fn len(&self) -> (r: usize)
        ensures
            r == self.spec_len(),
    {
        self.size as usize
    }

    pub fn bitlen(&self) -> (r: u32)
        ensures
            r == self.spec_len(),
    {
        self.size as u32
    }

    /// Appends a bit; a code may not reach 32 bits.
    pub fn push(&mut self, bit: bool)
        requires
            old(self).wf(),
            old(self).spec_len() < 31,
        ensures
            final(self).wf(),
            final(self).spec_len() == old(self).spec_len() + 1,
            final(self).bits() == old(self).bits().push(bit),
            *final(self) == code_push(*old(self), bit),
    {
        proof {
            crate::bits::lemma_nat_bits_push(self.code as nat, self.size as nat, bit);
            crate::bits::lemma_bits_bound(self.code as nat, self.size as nat, bit);
            vstd::arithmetic::power2::lemma2_to64();
            if self.size + 1 < 32 {
                vstd::arithmetic::power2::lemma_pow2_strictly_increases((self.size + 1) as nat, 32);
            }
        }
        self.size = self.size + 1;
        self.code = 2 * self.code + if bit { 1u32 } else { 0u32 };
    }

    pub fn extend(self, bit: bool) -> (r: Self)
        requires
            self.wf(),
            self.spec_len() < 31,
        ensures
            r.wf(),
            r.spec_len() == self.spec_len() + 1,
            r.bits() == self.bits().push(bit),
            r == code_push(self, bit),
    {
        let mut c = self;
        c.push(bit);
        c
    }
}

/// A code with one more bit at its end.
pub open spec fn code_push(c: HuffCode, b: bool) -> HuffCode {
    HuffCode {
        code: (2 * c.code + if b {
            1int
        } else {
            0int
        }) as u32,
        size: (c.size + 1) as u8,
    }
}

/// `map` with every width of `ls` set to `v`.
pub open spec fn set_all(map: Seq<Option<(u8, HuffCode)>>, ls: Seq<u8>, v: Option<(u8, HuffCode)>) -> Seq<
    Option<(u8, HuffCode)>,
>
    decreases ls.len(),
{
    if ls.len() == 0 {
        map
    } else {
        set_all(map, ls.drop_last(), v).update(ls.last() as int, v)
    }
}

/// `map` after entering the codes of the sub-tree `n`, `prefix` leading,
/// left to right: a leaf enters `size -> (size, code)`, a combined leaf
/// also `lesser -> (size, code)` for each lesser width; a later leaf
/// replaces what an earlier one entered for the same width.
pub open spec fn gen_map(n: TreeNode, prefix: HuffCode, map: Seq<Option<(u8, HuffCode)>>) -> Seq<
    Option<(u8, HuffCode)>,
>
    decreases n,
{
    match n {
        TreeNode::Leaf { size, .. } => map.update(size as int, Some((size, prefix))),
        TreeNode::CombinedLeaf { size, lesser, .. } => set_all(
            map.update(size as int, Some((size, prefix))),
            lesser_items(lesser),
            Some((size, prefix)),
        ),
        TreeNode::Node { left, right, .. } => gen_map(
            *right,
            code_push(prefix, true),
            gen_map(*left, code_push(prefix, false), map),
        ),
    }
}

/// The code map of a tree: its codes entered into an empty map.
pub open spec fn code_map_of(n: TreeNode) -> Seq<Option<(u8, HuffCode)>> {
    gen_map(n, HuffCode { code: 0, size: 0 }, Seq::new(256, |k: int| None))
}

/// A node of a Huffman tree under construction. A combined leaf stands for
/// its own width and for the lesser ones it absorbed, all written at its
/// width.
pub enum TreeNode {
    Leaf { size: u8, freq: u64 },
    CombinedLeaf { size: u8, freq: u64, lesser: Lessers },
    Node { freq: u64, left: Box<TreeNode>, right: Box<TreeNode> },
}

impl TreeNode {
    /// The lesser widths of every combined leaf are below its own width.
    pub open spec fn wf(&self) -> bool
        decreases self,
    {
        match self {
            TreeNode::Leaf { .. } => true,
            TreeNode::CombinedLeaf { size, lesser, .. } => forall|i: int|
                0 <= i < lesser_items(*lesser).len() ==> #[trigger] lesser_items(*lesser)[i] <= *size,
            TreeNode::Node { left, right, .. } => left.wf() && right.wf(),
        }
    }

    /// The widths this sub-tree has codes for.
    pub open spec fn covers(&self) -> Set<u8>
        decreases self,
    {
        match self {
            TreeNode::Leaf { size, .. } => set![*size],
            TreeNode::CombinedLeaf { size, lesser, .. } => set![*size] + lesser_items(*lesser).to_set(),
            TreeNode::Node { left, right, .. } => left.covers() + right.covers(),
        }
    }

    pub open spec fn spec_freq(&self) -> nat {
        match self {
            TreeNode::Leaf { freq, .. } => *freq as nat,
            TreeNode::CombinedLeaf { freq, .. } => *freq as nat,
            TreeNode::Node { freq, .. } => *freq as nat,
        }
    }

    pub fn freq(&self) -> (r: u64)
        ensures
            r == self.spec_freq(),
    {
        match self {
            TreeNode::Leaf { freq, .. } => *freq,
            TreeNode::CombinedLeaf { freq, .. } => *freq,
            TreeNode::Node { freq, .. } => *freq,
        }
    }

    pub open spec fn spec_size(&self) -> Option<u8> {
        match self {
            TreeNode::Leaf { size, .. } => Some(*size),
            TreeNode::CombinedLeaf { size, .. } => Some(*size),
            TreeNode::Node { .. } => None,
        }
    }

    pub fn size(&self) -> (r: Option<u8>)
        ensures
            r == self.spec_size(),
    {
        match self {
            TreeNode::Leaf { size, .. } => Some(*size),
            TreeNode::CombinedLeaf { size, .. } => Some(*size),
            TreeNode::Node { .. } => None,
        }
    }

    /// The widths this node stands for beside its own.
    pub open spec fn spec_lessers(&self) -> Seq<u8> {
        match self {
            TreeNode::CombinedLeaf { lesser, .. } => lesser_items(*lesser),
            _ => Seq::empty(),
        }
    }

    pub fn lessers(&self) -> (r: &[u8])
        ensures
            r@ == self.spec_lessers(),
    {
        match self {
            TreeNode::CombinedLeaf { lesser, .. } => lesser_slice(lesser),
            _ => &[],
        }
    }

    /// Joins two nodes: as one combined leaf when `pair_lesser_sizes`
    /// finds that this saves bits, else as a node with `l` on the left.
    pub fn combine(l: TreeNode, r: TreeNode) -> (res: TreeNode)
        requires
            l.wf(),
            r.wf(),
            l.spec_freq() + r.spec_freq() <= u64::MAX,
        ensures
            res.wf(),
            res.spec_freq() == l.spec_freq() + r.spec_freq(),
            res.covers() == l.covers() + r.covers(),
            leaf_count(res) <= leaf_count(l) + leaf_count(r),
            combine_rel(l, r, res),
    {
        proof {
            lemma_leaf_count_pos(l);
            lemma_leaf_count_pos(r);
        }
        match pair_lesser_sizes(&l, &r) {
            Some(t) => t,
            None => {
                let freq = l.freq() + r.freq();
                TreeNode::Node { freq, left: Box::new(l), right: Box::new(r) }
            },
        }
    }

    /// Enters in `map` the code of every width under this node, `prefix`
    /// leading; fails when a code would reach 32 bits.
    #[verifier::rlimit(100)]
    pub fn generate_code(&self, prefix: HuffCode, map: &mut Vec<Option<(u8, HuffCode)>>) -> (r: Result<(), VpkError>)
        requires
            self.wf(),
            prefix.wf(),
            code_map_ok(old(map)@),
        ensures
            code_map_ok(final(map)@),
            forall|k: int| 0 <= k < CODE_MAP_LEN && (#[trigger] old(map)@[k]) is Some ==> final(map)@[k] is Some,
            r is Ok ==> forall|k: int|
                0 <= k < CODE_MAP_LEN && #[trigger] final(map)@[k] != old(map)@[k] ==> (final(map)@[k] matches Some((w, c))
                    && c.bits().len() >= prefix.bits().len() && c.bits().subrange(0, prefix.bits().len() as int) == prefix.bits()
                    && node_path(*self, c.bits().subrange(prefix.bits().len() as int, c.bits().len() as int)) == Some(w)),
            r is Ok ==> forall|w: u8| #[trigger] self.covers().contains(w) ==> final(map)@[w as int] is Some,
            r is Ok <==> node_fits(*self, prefix.spec_len()),
            r matches Err(e) ==> e == VpkError::BadTreeEncoding,
            r is Ok ==> final(map)@ == gen_map(*self, prefix, old(map)@),
            forall|k: int|
                0 <= k < CODE_MAP_LEN && #[trigger] final(map)@[k] != old(map)@[k] ==> self.covers().contains(
                    k as u8,
                ),
        decreases self,
    {
        match self {
            TreeNode::Leaf { size, .. } => {
                map.set(*size as usize, Some((*size, prefix)));
                assert forall|w: u8| #[trigger] self.covers().contains(w) implies map@[w as int] is Some by {
                    assert(w == *size);
                }
                assert(prefix.bits().subrange(0, prefix.bits().len() as int) =~= prefix.bits());
                assert(prefix.bits().subrange(prefix.bits().len() as int, prefix.bits().len() as int) =~= Seq::<bool>::empty());
                Ok(())
            },
            TreeNode::CombinedLeaf { size, lesser, .. } => {
                map.set(*size as usize, Some((*size, prefix)));
                let ghost map1 = map@;
                let ls = lesser_slice(lesser);
                let mut i: usize = 0;
                assert(ls@.subrange(0, 0) =~= Seq::<u8>::empty());
                assert(self.covers() == set![*size] + lesser_items(*lesser).to_set());
                assert(self.covers().contains(*size));
                while i < ls.len()
                    invariant
                        self.covers() == set![*size] + lesser_items(*lesser).to_set(),
                        code_map_ok(map@),
                        prefix.wf(),
                        i <= ls@.len(),
                        ls@ == lesser_items(*lesser),
                        forall|j: int| 0 <= j < ls@.len() ==> #[trigger] ls@[j] <= *size,
                        forall|k: int| 0 <= k < CODE_MAP_LEN && (#[trigger] old(map)@[k]) is Some ==> map@[k] is Some,
                        map@[*size as int] is Some,
                        forall|k: int| 0 <= k < CODE_MAP_LEN && #[trigger] map@[k] != old(map)@[k] ==> map@[k] == Some((*size, prefix)),
                        forall|j: int| 0 <= j < i ==> map@[#[trigger] ls@[j] as int] is Some,
                        forall|k: int| 0 <= k < CODE_MAP_LEN && #[trigger] map@[k] != old(map)@[k] ==> self.covers().contains(k as u8),
                        self.covers().contains(*size),
                        map@ == set_all(map1, ls@.subrange(0, i as int), Some((*size, prefix))),
                    decreases ls@.len() - i,
                {
                    assert(ls@.subrange(0, i + 1).drop_last() =~= ls@.subrange(0, i as int));
                    assert(ls@.contains(ls@[i as int]));
                    assert(lesser_items(*lesser).to_set().contains(ls@[i as int]));
                    assert(self.covers().contains(ls@[i as int]));
                    map.set(ls[i] as usize, Some((*size, prefix)));
                    i = i + 1;
                }
                assert(ls@.subrange(0, ls@.len() as int) =~= ls@);
                assert(prefix.bits().subrange(0, prefix.bits().len() as int) =~= prefix.bits());
                assert(prefix.bits().subrange(prefix.bits().len() as int, prefix.bits().len() as int) =~= Seq::<bool>::empty());
                assert forall|w: u8| #[trigger] self.covers().contains(w) implies map@[w as int] is Some by {
                    if w != *size {
                        assert(ls@.to_set().contains(w));
                        let j = choose|j: int| 0 <= j < ls@.len() && ls@[j] == w;
                        assert(map@[ls@[j] as int] is Some);
                    }
                }
                Ok(())
            },
            TreeNode::Node { left, right, .. } => {
                if prefix.len() >= 31 {
                    return Err(VpkError::BadTreeEncoding);
                }
                match left.generate_code(prefix.extend(false), map) {
                    Ok(()) => {},
                    Err(e) => {
                        return Err(e);
                    },
                }
                let ghost mid = map@;
                let r = right.generate_code(prefix.extend(true), map);
                proof {
                    assert(self.covers() == left.covers() + right.covers());
                    assert forall|k: int| 0 <= k < CODE_MAP_LEN && #[trigger] map@[k] != old(map)@[k] implies self.covers().contains(k as u8) by {
                        if map@[k] == mid[k] {
                            assert(left.covers().contains(k as u8));
                        } else {
                            assert(right.covers().contains(k as u8));
                        }
                    }
                    if r is Ok {
                        let pl = prefix.bits().len() as int;
                        assert forall|k: int|
                            0 <= k < CODE_MAP_LEN && #[trigger] map@[k] != old(map)@[k] implies (map@[k] matches Some((w, c))
                                && c.bits().len() >= pl && c.bits().subrange(0, pl) == prefix.bits()
                                && node_path(*self, c.bits().subrange(pl, c.bits().len() as int)) == Some(w)) by {
                            let (w, c) = map@[k]->Some_0;
                            let cb = c.bits();
                            let side = map@[k] != mid[k];
                            let q = prefix.bits().push(side);
                            assert(cb.subrange(0, pl + 1) == q);
                            assert(cb.subrange(0, pl) =~= prefix.bits()) by {
                                assert forall|i: int| 0 <= i < pl implies cb[i] == prefix.bits()[i] by {
                                    assert(cb.subrange(0, pl + 1)[i] == q[i]);
                                }
                            }
                            assert(cb[pl] == side) by {
                                assert(cb.subrange(0, pl + 1)[pl] == q[pl]);
                            }
                            assert(cb.subrange(pl, cb.len() as int).drop_first() =~= cb.subrange(pl + 1, cb.len() as int));
                        }
                    }
                    if r is Ok {
                        assert forall|w: u8| #[trigger] self.covers().contains(w) implies map@[w as int] is Some by {
                            if left.covers().contains(w) {
                                assert(mid[w as int] is Some);
                            }
                        }
                    }
                }
                r
            },
        }
    }

    /// Appends the sub-tree in post-order and returns the index of its root.
    pub fn flatten(&self, arr: &mut Vec<TreeEntry>) -> (r: usize)
        requires
            entries_wf(old(arr)@),
        ensures
            entries_wf(final(arr)@),
            final(arr)@.len() > old(arr)@.len(),
            r == final(arr)@.len() - 1,
            final(arr)@.subrange(0, old(arr)@.len() as int) == old(arr)@,
            final(arr)@ == old(arr)@ + flat(*self, old(arr)@.len()),
        decreases self,
    {
        match self {
            TreeNode::Leaf { size, .. } => {
                arr.push(TreeEntry::Leaf(*size));
                assert(arr@.subrange(0, old(arr)@.len() as int) =~= old(arr)@);
                arr.len() - 1
            },
            TreeNode::CombinedLeaf { size, .. } => {
                arr.push(TreeEntry::Leaf(*size));
                assert(arr@.subrange(0, old(arr)@.len() as int) =~= old(arr)@);
                arr.len() - 1
            },
            TreeNode::Node { left, right, .. } => {
                let ghost a0 = arr@;
                let li = left.flatten(arr);
                let ghost a1 = arr@;
                let ri = right.flatten(arr);
                let ghost a2 = arr@;
                arr.push(TreeEntry::Node { left: li, right: ri });
                assert(arr@ =~= a0 + flat(*self, a0.len()));
                proof {
                    assert(a2.subrange(0, a1.len() as int) == a1);
                    assert(a1.subrange(0, a0.len() as int) == a0);
                    assert(arr@.subrange(0, a0.len() as int) =~= a0) by {
                        assert forall|k: int| 0 <= k < a0.len() implies arr@[k] == a0[k] by {
                            assert(a2[k] == a1[k]);
                        }
                    }
                }
                arr.len() - 1
            },
        }
    }
}

/// The entries that `flatten` appends for `n` when `base` entries come first.
pub open spec fn flat(n: TreeNode, base: nat) -> Seq<TreeEntry>
    decreases n,
{
    match n {
        TreeNode::Leaf { size, .. } => seq![TreeEntry::Leaf(size)],
        TreeNode::CombinedLeaf { size, .. } => seq![TreeEntry::Leaf(size)],
        TreeNode::Node { left, right, .. } => {
            let l = flat(*left, base);
            let r = flat(*right, base + l.len());
            l + r + seq![
                TreeEntry::Node {
                    left: (base + l.len() - 1) as usize,
                    right: (base + l.len() + r.len() - 1) as usize,
                },
            ]
        },
    }
}

pub proof fn lemma_flat_len(n: TreeNode, base: nat)
    ensures
        flat(n, base).len() >= 1,
    decreases n,
{
    if let TreeNode::Node { left, right, .. } = n {
        lemma_flat_len(*left, base);
        lemma_flat_len(*right, base + flat(*left, base).len());
    }
}

/// Reading the wire bits of a flattened sub-tree adds its entries and
/// leaves its root on the stack.
#[verifier::rlimit(100)]
pub proof fn lemma_parse_flat(n: TreeNode, e: Seq<TreeEntry>, stack: Seq<usize>, bits: Seq<bool>, pos: int)
    requires
        0 <= pos,
        pos + entries_bits(flat(n, e.len())).len() <= bits.len(),
        bits.subrange(pos, pos + entries_bits(flat(n, e.len())).len()) == entries_bits(flat(n, e.len())),
        e.len() + flat(n, e.len()).len() <= usize::MAX,
    ensures
        parse_tree(bits, pos, e, stack) == parse_tree(
            bits,
            pos + entries_bits(flat(n, e.len())).len(),
            e + flat(n, e.len()),
            stack.push((e.len() + flat(n, e.len()).len() - 1) as usize),
        ),
    decreases n,
{
    let f = flat(n, e.len());
    match n {
        TreeNode::Node { left, right, .. } => {
            let l = flat(*left, e.len());
            let r = flat(*right, e.len() + l.len());
            let node = TreeEntry::Node {
                left: (e.len() + l.len() - 1) as usize,
                right: (e.len() + l.len() + r.len() - 1) as usize,
            };
            lemma_flat_len(*left, e.len());
            lemma_flat_len(*right, e.len() + l.len());
            lemma_entries_bits_concat(l, r);
            lemma_entries_bits_concat(l + r, seq![node]);
            assert(f == l + r + seq![node]);
            crate::format::lemma_entries_bits_one(node);
            let lb = entries_bits(l);
            let rb = entries_bits(r);
            assert(entries_bits(f) == lb + rb + seq![true]);
            assert(bits.subrange(pos, pos + lb.len()) =~= lb) by {
                assert forall|i: int| 0 <= i < lb.len() implies bits[pos + i] == lb[i] by {
                    assert(bits.subrange(pos, pos + entries_bits(f).len())[i] == entries_bits(f)[i]);
                }
            }
            lemma_parse_flat(*left, e, stack, bits, pos);
            let e1 = e + l;
            let s1 = stack.push((e.len() + l.len() - 1) as usize);
            assert(bits.subrange(pos + lb.len(), pos + lb.len() + rb.len()) =~= rb) by {
                assert forall|i: int| 0 <= i < rb.len() implies bits[pos + lb.len() + i] == rb[i] by {
                    assert(bits.subrange(pos, pos + entries_bits(f).len())[lb.len() + i] == entries_bits(f)[lb.len() + i]);
                }
            }
            assert(e1.len() == e.len() + l.len());
            lemma_parse_flat(*right, e1, s1, bits, pos + lb.len());
            let e2 = e1 + r;
            let s2 = s1.push((e1.len() + r.len() - 1) as usize);
            let pos2 = pos + lb.len() + rb.len();
            assert(bits[pos2] == true) by {
                assert(bits.subrange(pos, pos + entries_bits(f).len())[(lb.len() + rb.len()) as int] == entries_bits(f)[(lb.len() + rb.len()) as int]);
            }
            assert(s2.last() == node->right);
            assert(s2.drop_last().last() == node->left);
            assert(s2.drop_last().drop_last() =~= stack);
            assert(e2.push(node) =~= e + f);
        },
        _ => {
            let size = match n {
                TreeNode::Leaf { size, .. } => size,
                TreeNode::CombinedLeaf { size, .. } => size,
                _ => 0,
            };
            assert(f == seq![TreeEntry::Leaf(size)]);
            crate::format::lemma_entries_bits_one(TreeEntry::Leaf(size));
            assert(bits[pos] == false) by {
                assert(bits.subrange(pos, pos + 9)[0] == entries_bits(f)[0]);
            }
            assert(bits.subrange(pos + 1, pos + 9) =~= crate::bits::nat_bits(size as nat, 8)) by {
                assert forall|i: int| 0 <= i < 8 implies bits[pos + 1 + i] == crate::bits::nat_bits(size as nat, 8)[i] by {
                    assert(bits.subrange(pos, pos + 9)[1 + i] == entries_bits(f)[1 + i]);
                }
            }
            vstd::arithmetic::power2::lemma2_to64();
            lemma_bits_value_of(size as nat, 8);
            assert(e.push(TreeEntry::Leaf(size)) =~= e + f);
        },
    }
}

/// The width of the leaf that path `p` leads to in `n`, if it ends on one.
pub open spec fn node_path(n: TreeNode, p: Seq<bool>) -> Option<u8>
    decreases n,
{
    match n {
        TreeNode::Leaf { size, .. } => if p.len() == 0 {
            Some(size)
        } else {
            None
        },
        TreeNode::CombinedLeaf { size, .. } => if p.len() == 0 {
            Some(size)
        } else {
            None
        },
        TreeNode::Node { left, right, .. } => {
            if p.len() == 0 {
                None
            } else if p[0] {
                node_path(*right, p.drop_first())
            } else {
                node_path(*left, p.drop_first())
            }
        },
    }
}

/// A path through a sub-tree leads, in any arena that holds the sub-tree's
/// flattened entries, to a leaf of the same width.
#[verifier::rlimit(100)]
pub proof fn lemma_flat_path(n: TreeNode, e: Seq<TreeEntry>, base: nat, p: Seq<bool>)
    requires
        node_path(n, p) is Some,
        e.len() <= usize::MAX,
        base + flat(n, base).len() <= e.len(),
        e.subrange(base as int, (base + flat(n, base).len()) as int) == flat(n, base),
    ensures
        code_leads_to(e, base + flat(n, base).len() - 1, p) matches Some(l) && leaf_width(e, l)
            == node_path(n, p)->Some_0 as nat && 0 <= l < e.len() && e[l] is Leaf,
    decreases n,
{
    let f = flat(n, base);
    lemma_flat_len(n, base);
    let root = base + f.len() - 1;
    assert(e[root] == f[f.len() - 1]) by {
        assert(e.subrange(base as int, (base + f.len()) as int)[f.len() - 1] == f[f.len() - 1]);
    }
    if let TreeNode::Node { left, right, .. } = n {
        let l = flat(*left, base);
        let r = flat(*right, base + l.len());
        lemma_flat_len(*left, base);
        lemma_flat_len(*right, base + l.len());
        let b = base as int;
        assert(e.subrange(b, b + l.len()) =~= l) by {
            assert forall|i: int| 0 <= i < l.len() implies e[b + i] == l[i] by {
                assert(e.subrange(b, b + f.len())[i] == f[i]);
            }
        }
        assert(e.subrange(b + l.len(), b + l.len() + r.len()) =~= r) by {
            assert forall|i: int| 0 <= i < r.len() implies e[b + l.len() + i] == r[i] by {
                assert(e.subrange(b, b + f.len())[l.len() + i] == f[l.len() + i]);
            }
        }
        let node = TreeEntry::Node {
            left: (base + l.len() - 1) as usize,
            right: (base + l.len() + r.len() - 1) as usize,
        };
        assert(f == l + r + seq![node]);
        assert(f[f.len() - 1] == node);
        assert(p.len() > 0);
        if p[0] {
            lemma_flat_path(*right, e, base + l.len(), p.drop_first());
            assert(code_leads_to(e, root, p) == code_leads_to(e, b + l.len() + r.len() - 1, p.drop_first()));
        } else {
            lemma_flat_path(*left, e, base, p.drop_first());
            assert(code_leads_to(e, root, p) == code_leads_to(e, b + l.len() - 1, p.drop_first()));
        }
    } else {
        let size = match n {
            TreeNode::Leaf { size, .. } => size,
            TreeNode::CombinedLeaf { size, .. } => size,
            _ => 0,
        };
        assert(f == seq![TreeEntry::Leaf(size)]);
        assert(e[root] == TreeEntry::Leaf(size));
        assert(p.len() == 0);
        assert(code_leads_to(e, root, p) == Some(root));
    }
}

/// Every code of the map leads through the tree `e` to a leaf whose width
/// is the one the map gives.
pub open spec fn map_matches(map: Seq<Option<(u8, HuffCode)>>, e: Seq<TreeEntry>) -> bool {
    forall|k: int|
        0 <= k < map.len() ==> (#[trigger] map[k] matches Some((w, c)) ==> code_leads_to(
            e,
            e.len() - 1,
            c.bits(),
        ) matches Some(l) && 0 <= l < e.len() && leaf_width(e, l) == w as nat)
}

/// The code map of a tree: an entry exactly for each width the tree has a
/// code for, and each entry's code leads to a leaf of the width it gives.
pub open spec fn tree_map(n: TreeNode, map: Seq<Option<(u8, HuffCode)>>) -> bool {
    &&& map.len() == CODE_MAP_LEN
    &&& forall|k: int| 0 <= k < CODE_MAP_LEN ==> (#[trigger] map[k] is Some <==> n.covers().contains(k as u8))
    &&& forall|k: int|
        0 <= k < CODE_MAP_LEN ==> (#[trigger] map[k] matches Some((w, c)) ==> node_path(n, c.bits()) == Some(w))
}

/// A code map: one entry for each width; a width maps to the width it is
/// written at, never smaller, and a code.
pub open spec fn code_map_ok(map: Seq<Option<(u8, HuffCode)>>) -> bool {
    &&& map.len() == CODE_MAP_LEN
    &&& forall|k: int|
        0 <= k < CODE_MAP_LEN ==> (#[trigger] map[k] matches Some((w, c)) ==> c.wf() && w >= k)
}

/// Whether every code under `n` stays below 32 bits when `k` bits come
/// first: no node lies at depth `31 - k` or deeper.
pub open spec fn node_fits(n: TreeNode, k: nat) -> bool
    decreases n,
{
    match n {
        TreeNode::Node { left, right, .. } => k < 31 && node_fits(*left, k + 1) && node_fits(
            *right,
            k + 1,
        ),
        _ => true,
    }
}

/// The number of entries of a code map: one for each possible width.
pub const CODE_MAP_LEN: usize = 256;

/// Of two leaves, the one of larger width; `l` when they are equal.
pub open spec fn higher_of(l: TreeNode, r: TreeNode) -> TreeNode {
    if l.spec_size()->Some_0 >= r.spec_size()->Some_0 {
        l
    } else {
        r
    }
}

/// Of two leaves, the other one.
pub open spec fn lower_of(l: TreeNode, r: TreeNode) -> TreeNode {
    if l.spec_size()->Some_0 >= r.spec_size()->Some_0 {
        r
    } else {
        l
    }
}

/// Whether two nodes are leaves whose merge saves bits:
/// `hf - (hs - ls - 1) * lf >= 0`.
pub open spec fn merge_ok(l: TreeNode, r: TreeNode) -> bool {
    let h = higher_of(l, r);
    let w = lower_of(l, r);
    &&& l.spec_size() is Some
    &&& r.spec_size() is Some
    &&& h.spec_freq() - (h.spec_size()->Some_0 - w.spec_size()->Some_0 - 1) * w.spec_freq() >= 0
}

/// Tries to merge two leaves (plain or combined) into one combined leaf.
/// With `hs >= ls` their widths and `hf`, `lf` their counts, the merge
/// saves a bit on each of the `hf` values and costs `hs - ls` bits on each
/// of the `lf` ones; it is made when `hf - (hs - ls - 1) * lf >= 0`.
#[verifier::rlimit(100)]
pub fn pair_lesser_sizes(l: &TreeNode, r: &TreeNode) -> (res: Option<TreeNode>)
    requires
        l.wf(),
        r.wf(),
        l.spec_freq() + r.spec_freq() <= u64::MAX,
    ensures
        res matches Some(t) ==> t.wf() && t.spec_freq() == l.spec_freq() + r.spec_freq() && t.covers()
            == l.covers() + r.covers(),
        res is Some <==> merge_ok(*l, *r),
        res matches Some(t) ==> (t matches TreeNode::CombinedLeaf { size, freq, lesser } && size
            == higher_of(*l, *r).spec_size()->Some_0 && freq == l.spec_freq() + r.spec_freq()
            && lesser_items(lesser) == seq![lower_of(*l, *r).spec_size()->Some_0] + higher_of(
            *l,
            *r,
        ).spec_lessers() + lower_of(*l, *r).spec_lessers()),
{
    let (higher, lower) = match order_leaves(l, r) {
        Some(p) => p,
        None => {
            return None;
        },
    };
    let hs = higher.size().unwrap();
    let ls = lower.size().unwrap();
    let hf = higher.freq();
    let lf = lower.freq();
    let bit_diff = hs as i128 - ls as i128;
    let bits_gained = hf as i128;
    assert(-1 <= bit_diff - 1 <= 255);
    assert((bit_diff - 1) * (lf as i128) <= 255 * 0x1_0000_0000_0000_0000 && (bit_diff - 1) * (
    lf as i128) >= -0x1_0000_0000_0000_0000) by (nonlinear_arith)
        requires
            -1 <= bit_diff - 1 <= 255,
            0 <= lf <= 0xFFFF_FFFF_FFFF_FFFF,
    ;
    let bits_lost = (bit_diff - 1) * lf as i128;
    assert(*higher == higher_of(*l, *r) && *lower == lower_of(*l, *r));
    assert((bits_gained - bits_lost >= 0) == merge_ok(*l, *r));
    if bits_gained - bits_lost >= 0 {
        let mut lesser = lesser_from(&[ls]);
        lesser_extend(&mut lesser, higher.lessers());
        lesser_extend(&mut lesser, lower.lessers());
        let t = TreeNode::CombinedLeaf { size: hs, freq: hf + lf, lesser };
        proof {
            let items = lesser_items(lesser);
            let a = seq![ls];
            let b = higher.spec_lessers();
            let c = lower.spec_lessers();
            assert(items == a + b + c);
            assert(higher.covers() == set![hs] + b.to_set());
            assert(lower.covers() == set![ls] + c.to_set());
            lemma_to_set_concat(a, b);
            lemma_to_set_concat(a + b, c);
            assert(a.to_set() =~= set![ls]) by {
                assert(a[0] == ls);
                assert(a.contains(ls));
                assert forall|x: u8| a.to_set().contains(x) implies x == ls by {}
            }
            assert(t.covers() =~= l.covers() + r.covers());
            assert forall|i: int| 0 <= i < items.len() implies #[trigger] items[i] <= hs by {
                if i == 0 {
                } else if i < 1 + b.len() {
                    assert(items[i] == b[i - 1]);
                    if let TreeNode::CombinedLeaf { lesser: lh, .. } = higher {
                        assert(lesser_items(*lh)[i - 1] <= hs);
                    }
                } else {
                    assert(items[i] == c[i - 1 - b.len()]);
                    if let TreeNode::CombinedLeaf { lesser: ll, .. } = lower {
                        assert(lesser_items(*ll)[i - 1 - b.len()] <= ls);
                    }
                }
            }
        }
        Some(t)
    } else {
        None
    }
}

/// Both nodes as (higher, lower) by width, when both are leaves.
pub fn order_leaves<'a>(l: &'a TreeNode, r: &'a TreeNode) -> (res: Option<(&'a TreeNode, &'a TreeNode)>)
    ensures
        res is Some <==> l.spec_size() is Some && r.spec_size() is Some,
        res matches Some((h, w)) ==> ((h == l && w == r) || (h == r && w == l)) && h.spec_size()->Some_0
            >= w.spec_size()->Some_0,
        res matches Some((h, w)) ==> *h == higher_of(*l, *r) && *w == lower_of(*l, *r),
{
    match (l.size(), r.size()) {
        (Some(ls), Some(rs)) => {
            if ls >= rs {
                Some((l, r))
            } else {
                Some((r, l))
            }
        },
        _ => None,
    }
}

/// The number of leaves of a sub-tree.
pub open spec fn leaf_count(n: TreeNode) -> nat
    decreases n,
{
    match n {
        TreeNode::Node { left, right, .. } => leaf_count(*left) + leaf_count(*right),
        _ => 1,
    }
}

pub proof fn lemma_leaf_count_pos(n: TreeNode)
    ensures
        leaf_count(n) >= 1,
    decreases n,
{
    if let TreeNode::Node { left, right, .. } = n {
        lemma_leaf_count_pos(*left);
    }
}

/// A tree with few enough leaves is shallow enough for 31-bit codes: no node
/// lies deeper than the number of leaves less two.
pub proof fn lemma_fits_by_leaves(n: TreeNode, k: nat)
    requires
        k + leaf_count(n) <= 32,
    ensures
        node_fits(n, k),
    decreases n,
{
    if let TreeNode::Node { left, right, .. } = n {
        lemma_leaf_count_pos(*left);
        lemma_leaf_count_pos(*right);
        lemma_fits_by_leaves(*left, k + 1);
        lemma_fits_by_leaves(*right, k + 1);
    }
}

/// The number of leaves of some nodes.
pub open spec fn leaf_sum(s: Seq<TreeNode>) -> nat
    decreases s.len(),
{
    if s.len() == 0 {
        0
    } else {
        leaf_sum(s.drop_last()) + leaf_count(s.last())
    }
}

pub proof fn lemma_leaf_sum_remove(s: Seq<TreeNode>, i: int)
    requires
        0 <= i < s.len(),
    ensures
        leaf_sum(s) == leaf_sum(s.remove(i)) + leaf_count(s[i]),
    decreases s.len(),
{
    if i < s.len() - 1 {
        lemma_leaf_sum_remove(s.drop_last(), i);
        assert(s.remove(i).drop_last() =~= s.drop_last().remove(i));
        assert(s.remove(i).last() == s.last());
    } else {
        assert(s.remove(i) =~= s.drop_last());
    }
}

/// The number of widths below `n` that occur in a histogram.
pub open spec fn nonzero_count(h: Seq<u64>, n: int) -> nat
    decreases n,
{
    if n <= 0 {
        0
    } else {
        nonzero_count(h, n - 1) + if h[n - 1] > 0 {
            1nat
        } else {
            0nat
        }
    }
}

/// `c` joins `l` and `r`: the combined leaf that `pair_lesser_sizes`
/// describes when the merge saves bits, else a node with `l` on the left.
pub open spec fn combine_rel(l: TreeNode, r: TreeNode, c: TreeNode) -> bool {
    if merge_ok(l, r) {
        c matches TreeNode::CombinedLeaf { size, freq, lesser } && size == higher_of(l, r).spec_size()->Some_0
            && freq == l.spec_freq() + r.spec_freq() && lesser_items(lesser) == seq![lower_of(l, r).spec_size()->Some_0]
            + higher_of(l, r).spec_lessers() + lower_of(l, r).spec_lessers()
    } else {
        c == TreeNode::Node { freq: (l.spec_freq() + r.spec_freq()) as u64, left: Box::new(l), right: Box::new(r) }
    }
}

/// Whether `h[i]` has the least count of `h`, and is the first such.
pub open spec fn is_first_min(h: Seq<TreeNode>, i: int) -> bool {
    &&& 0 <= i < h.len()
    &&& forall|k: int| 0 <= k < h.len() ==> h[i].spec_freq() <= (#[trigger] h[k]).spec_freq()
    &&& forall|k: int| 0 <= k < i ==> (#[trigger] h[k]).spec_freq() > h[i].spec_freq()
}

/// The nodes left after joining the `i`-th node and then the `j`-th of the
/// rest into `c`, put at the end.
pub open spec fn after_join(h: Seq<TreeNode>, i: int, j: int, c: TreeNode) -> Seq<TreeNode> {
    h.remove(i).remove(j).push(c)
}

/// One step of the Huffman loop: take out the first node of least count,
/// then again, join the two (the first on the left), put the result at the
/// end.
pub open spec fn huffman_step(h: Seq<TreeNode>, h2: Seq<TreeNode>) -> bool {
    exists|i: int, j: int, c: TreeNode|
        is_first_min(h, i) && is_first_min(h.remove(i), j) && combine_rel(h[i], h.remove(i)[j], c)
            && #[trigger] after_join(h, i, j, c) == h2
}

/// The heaps of the loop from `h` down to the single node `t`.
pub open spec fn is_trace(tr: Seq<Seq<TreeNode>>, h: Seq<TreeNode>, t: TreeNode) -> bool {
    &&& tr.len() >= 1
    &&& tr[0] == h
    &&& tr.last() == seq![t]
    &&& forall|k: int| 0 <= k < tr.len() - 1 ==> huffman_step(#[trigger] tr[k], tr[k + 1])
}

/// `t` is the tree that the Huffman loop builds from the nodes `h`: while
/// two or more are left, take out the first node of least count, then
/// again, join the two (the first on the left) and put the result at the
/// end.
pub open spec fn huffman_of(h: Seq<TreeNode>, t: TreeNode) -> bool {
    exists|tr: Seq<Seq<TreeNode>>| #[trigger] is_trace(tr, h, t)
}

/// The leaves of the widths below `n` that occur in a histogram, in order.
pub open spec fn hist_leaves(hist: Seq<u64>, n: int) -> Seq<TreeNode>
    decreases n,
{
    if n <= 0 {
        Seq::empty()
    } else if hist[n - 1] > 0 {
        hist_leaves(hist, n - 1).push(TreeNode::Leaf { size: (n - 1) as u8, freq: hist[n - 1] })
    } else {
        hist_leaves(hist, n - 1)
    }
}

/// The sum of the counts of some nodes.
pub open spec fn freq_sum(s: Seq<TreeNode>) -> nat
    decreases s.len(),
{
    if s.len() == 0 {
        0
    } else {
        freq_sum(s.drop_last()) + s.last().spec_freq()
    }
}

/// The items of two sequences together are those of each.
pub proof fn lemma_to_set_concat(a: Seq<u8>, b: Seq<u8>)
    ensures
        (a + b).to_set() =~= a.to_set() + b.to_set(),
{
    assert forall|x: u8| #[trigger] (a + b).to_set().contains(x) implies a.to_set().contains(x)
        || b.to_set().contains(x) by {
        let i = choose|i: int| 0 <= i < (a + b).len() && (a + b)[i] == x;
        if i < a.len() {
            assert(a[i] == x);
        } else {
            assert(b[i - a.len()] == x);
        }
    }
    assert forall|x: u8| a.to_set().contains(x) || b.to_set().contains(x) implies #[trigger] (a
        + b).to_set().contains(x) by {
        if a.contains(x) {
            let i = choose|i: int| 0 <= i < a.len() && a[i] == x;
            assert((a + b)[i] == x);
        } else {
            let i = choose|i: int| 0 <= i < b.len() && b[i] == x;
            assert((a + b)[a.len() + i] == x);
        }
    }
}

/// The widths some nodes have codes for.
pub open spec fn covers_all(s: Seq<TreeNode>) -> Set<u8>
    decreases s.len(),
{
    if s.len() == 0 {
        Set::empty()
    } else {
        covers_all(s.drop_last()) + s.last().covers()
    }
}

pub proof fn lemma_covers_remove(s: Seq<TreeNode>, i: int)
    requires
        0 <= i < s.len(),
    ensures
        covers_all(s) == covers_all(s.remove(i)) + s[i].covers(),
    decreases s.len(),
{
    if i < s.len() - 1 {
        lemma_covers_remove(s.drop_last(), i);
        assert(s.remove(i).drop_last() =~= s.drop_last().remove(i));
        assert(s.remove(i).last() == s.last());
        assert(covers_all(s) =~= covers_all(s.remove(i)) + s[i].covers());
    } else {
        assert(s.remove(i) =~= s.drop_last());
    }
}

pub proof fn lemma_freq_sum_remove(s: Seq<TreeNode>, i: int)
    requires
        0 <= i < s.len(),
    ensures
        freq_sum(s) == freq_sum(s.remove(i)) + s[i].spec_freq(),
    decreases s.len(),
{
    if i < s.len() - 1 {
        lemma_freq_sum_remove(s.drop_last(), i);
        assert(s.remove(i).drop_last() =~= s.drop_last().remove(i));
        assert(s.remove(i).last() == s.last());
    } else {
        assert(s.remove(i) =~= s.drop_last());
    }
}

/// Takes out a node of least count, the first such.
fn pop_min(heap: &mut Vec<TreeNode>) -> (r: TreeNode)
    requires
        old(heap)@.len() >= 1,
        forall|k: int| 0 <= k < old(heap)@.len() ==> (#[trigger] old(heap)@[k]).wf(),
    ensures
        final(heap)@.len() == old(heap)@.len() - 1,
        r.wf(),
        forall|k: int| 0 <= k < final(heap)@.len() ==> (#[trigger] final(heap)@[k]).wf(),
        freq_sum(old(heap)@) == freq_sum(final(heap)@) + r.spec_freq(),
        covers_all(old(heap)@) == covers_all(final(heap)@) + r.covers(),
        leaf_sum(old(heap)@) == leaf_sum(final(heap)@) + leaf_count(r),
        forall|k: int| 0 <= k < old(heap)@.len() ==> r.spec_freq() <= (#[trigger] old(heap)@[k]).spec_freq(),
        exists|k: int| 0 <= k < old(heap)@.len() && r == old(heap)@[k] && final(heap)@ == old(heap)@.remove(k),
        exists|k: int| #[trigger] is_first_min(old(heap)@, k) && r == old(heap)@[k] && final(heap)@ == old(heap)@.remove(k),
{
    let mut best: usize = 0;
    let mut i: usize = 1;
    while i < heap.len()
        invariant
            1 <= heap@.len(),
            best < heap@.len(),
            heap@ == old(heap)@,
            i <= heap@.len(),
            forall|k: int| 0 <= k < i ==> heap@[best as int].spec_freq() <= (#[trigger] heap@[k]).spec_freq(),
            forall|k: int| 0 <= k < best ==> (#[trigger] heap@[k]).spec_freq() > heap@[best as int].spec_freq(),
            best < i,
        decreases heap@.len() - i,
    {
        if heap[i].freq() < heap[best].freq() {
            best = i;
        }
        i = i + 1;
    }
    proof {
        lemma_freq_sum_remove(heap@, best as int);
        lemma_covers_remove(heap@, best as int);
        lemma_leaf_sum_remove(heap@, best as int);
    }
    let ghost h = heap@;
    assert(is_first_min(h, best as int));
    let r = heap.remove(best);
    assert forall|k: int| 0 <= k < heap@.len() implies (#[trigger] heap@[k]).wf() by {
        if k < best {
            assert(heap@[k] == h[k]);
        } else {
            assert(heap@[k] == h[k + 1]);
        }
    }
    r
}

/// Joins the nodes, two of least count at a time, into one tree; `None`
/// when there are none.
#[verifier::rlimit(100)]
pub fn from_heap(heap: Vec<TreeNode>) -> (r: Option<TreeNode>)
    requires
        freq_sum(heap@) <= u64::MAX,
        forall|k: int| 0 <= k < heap@.len() ==> (#[trigger] heap@[k]).wf(),
    ensures
        r is None <==> heap@.len() == 0,
        r matches Some(t) ==> t.wf() && t.covers() == covers_all(heap@) && leaf_count(t) <= leaf_sum(
            heap@,
        ),
        heap@.len() == 1 ==> r == Some(heap@[0]),
        r matches Some(t) ==> huffman_of(heap@, t),
{
    let ghost all = covers_all(heap@);
    let ghost leaves = leaf_sum(heap@);
    let ghost h_init = heap@;
    let ghost mut trace: Seq<Seq<TreeNode>> = seq![heap@];
    let mut heap = heap;
    if heap.len() == 0 {
        return None;
    }
    while heap.len() >= 2
        invariant
            heap@.len() >= 1,
            covers_all(heap@) == all,
            leaf_sum(heap@) <= leaves,
            h_init.len() == 1 ==> heap@ == h_init,
            trace.len() >= 1,
            trace[0] == h_init,
            trace.last() == heap@,
            forall|k: int| 0 <= k < trace.len() - 1 ==> huffman_step(#[trigger] trace[k], trace[k + 1]),
            freq_sum(heap@) <= u64::MAX,
            forall|k: int| 0 <= k < heap@.len() ==> (#[trigger] heap@[k]).wf(),
        decreases heap@.len(),
    {
        let ghost h0 = heap@;
        let l = pop_min(&mut heap);
        let ghost h1 = heap@;
        let ghost lg = l;
        let r = pop_min(&mut heap);
        let ghost rg = r;
        let ghost h2 = heap@;
        let ghost lc = l.covers();
        let ghost rc = r.covers();
        assert(covers_all(h0) == covers_all(h1) + lc);
        assert(covers_all(h1) == covers_all(heap@) + rc);
        let new = TreeNode::combine(l, r);
        let ghost before = heap@;
        let ghost nc = new.covers();
        let ghost newg = new;
        heap.push(new);
        assert(heap@.drop_last() =~= before);
        assert(heap@.last().covers() == nc);
        assert(covers_all(heap@) == covers_all(before) + nc);
        assert(leaf_sum(heap@) == leaf_sum(before) + leaf_count(heap@.last()));
        assert(heap@.drop_last() =~= before);
        assert forall|k: int| 0 <= k < heap@.len() implies (#[trigger] heap@[k]).wf() by {
            if k < before.len() {
                assert(heap@[k] == before[k]);
            }
        }
        assert(covers_all(heap@) =~= all);
        proof {
            let i = choose|k: int| #[trigger] is_first_min(h0, k) && lg == h0[k] && h1 == h0.remove(k);
            let j = choose|k: int| #[trigger] is_first_min(h1, k) && rg == h1[k] && h2 == h1.remove(k);
            assert(combine_rel(lg, rg, newg));
            assert(after_join(h0, i, j, newg) == heap@);
            assert(huffman_step(h0, heap@));
            let t0 = trace;
            trace = trace.push(heap@);
            assert forall|k: int| 0 <= k < trace.len() - 1 implies huffman_step(#[trigger] trace[k], trace[k + 1]) by {
                if k < t0.len() - 1 {
                    assert(trace[k] == t0[k] && trace[k + 1] == t0[k + 1]);
                } else {
                    assert(trace[k] == h0);
                }
            }
        }
    }
    assert(covers_all(heap@) =~= heap@[0].covers()) by {
        assert(heap@.drop_last() =~= Seq::<TreeNode>::empty());
        assert(covers_all(heap@) == covers_all(heap@.drop_last()) + heap@.last().covers());
        assert(covers_all(heap@.drop_last()) == Set::<u8>::empty());
        assert(leaf_sum(heap@) == leaf_sum(heap@.drop_last()) + leaf_count(heap@.last()));
    }
    assert(heap@ =~= seq![heap@[0]]);
    assert(is_trace(trace, h_init, heap@[0]));
    assert(heap@.last() == heap@[0]);
    heap.pop()
}

/// The tree for a histogram of widths (index: width; a count of 0 means
/// the width does not occur), or `None` when no width occurs.
#[verifier::rlimit(100)]
pub fn from_found_codes(hist: &Vec<u64>) -> (r: Option<TreeNode>)
    requires
        hist@.len() <= CODE_MAP_LEN,
        forall|w: int| 0 <= w < hist@.len() ==> hist@[w] <= 0x10_0000_0000,
    ensures
        r is None <==> forall|w: int| 0 <= w < hist@.len() ==> hist@[w] == 0,
        r matches Some(t) ==> t.wf() && forall|w: int|
            0 <= w < hist@.len() && hist@[w] > 0 ==> #[trigger] t.covers().contains(w as u8),
        r matches Some(t) ==> forall|x: u8| #[trigger] t.covers().contains(x) ==> x < hist@.len() && hist@[x as int] > 0,
        r matches Some(t) ==> leaf_count(t) <= nonzero_count(hist@, hist@.len() as int),
        nonzero_count(hist@, hist@.len() as int) == 1 ==> (r matches Some(t) && t is Leaf),
        r matches Some(t) ==> huffman_of(hist_leaves(hist@, hist@.len() as int), t),
{
    let mut heap: Vec<TreeNode> = Vec::new();
    let mut w: usize = 0;
    while w < hist.len()
        invariant
            w <= hist@.len() <= CODE_MAP_LEN,
            forall|k: int| 0 <= k < hist@.len() ==> hist@[k] <= 0x10_0000_0000,
            freq_sum(heap@) <= w * 0x10_0000_0000,
            heap@.len() == 0 <==> forall|k: int| 0 <= k < w ==> hist@[k] == 0,
            forall|k: int| 0 <= k < heap@.len() ==> (#[trigger] heap@[k]).wf(),
            forall|k: int| 0 <= k < w && hist@[k] > 0 ==> #[trigger] covers_all(heap@).contains(k as u8),
            forall|x: u8| #[trigger] covers_all(heap@).contains(x) ==> x < w && hist@[x as int] > 0,
            leaf_sum(heap@) == nonzero_count(hist@, w as int),
            heap@.len() == nonzero_count(hist@, w as int),
            heap@ == hist_leaves(hist@, w as int),
            forall|k: int| 0 <= k < heap@.len() ==> (#[trigger] heap@[k]) is Leaf,
        decreases hist@.len() - w,
    {
        if hist[w] > 0 {
            let ghost before = heap@;
            heap.push(TreeNode::Leaf { size: w as u8, freq: hist[w] });
            assert(heap@.drop_last() =~= before);
            assert(covers_all(heap@) == covers_all(before) + set![w as u8]);
            assert(leaf_sum(heap@) == leaf_sum(before) + 1);
            assert forall|k: int| 0 <= k < heap@.len() implies (#[trigger] heap@[k]).wf() by {
                if k < before.len() {
                    assert(heap@[k] == before[k]);
                }
            }
        }
        w = w + 1;
    }
    from_heap(heap)
}

/// A code map for each width with the tree it comes from.
#[derive(Debug)]
pub struct MapTree {
    pub map: Vec<Option<(u8, HuffCode)>>,
    pub tree: VpkTree,
}

impl MapTree {
    pub open spec fn spec_map(&self) -> Seq<Option<(u8, HuffCode)>> {
        self.map@
    }

    pub open spec fn wf(&self) -> bool {
        &&& code_map_ok(self.spec_map())
        &&& self.tree.wf()
    }

    /// The tree is empty or the flattened form of a sub-tree, and every code
    /// of the map leads through it to a leaf of the width the map gives.
    pub open spec fn sound(&self) -> bool {
        &&& map_matches(self.spec_map(), self.tree.entries@)
        &&& self.tree.entries@.len() <= usize::MAX
        &&& (self.tree.entries@.len() == 0 || exists|n: TreeNode| self.tree.entries@ == flat(n, 0))
    }

    /// The width to write a value of `bitsize` bits at, and the code before it.
    pub fn get(&self, bitsize: u8) -> (r: Option<(u8, HuffCode)>)
        requires
            self.wf(),
        ensures
            r == self.spec_map()[bitsize as int],
    {
        self.map[bitsize as usize]
    }

    /// A map with no codes and an empty tree.
    pub fn empty() -> (r: Self)
        ensures
            r.wf(),
            r.sound(),
            r.tree.entries@.len() == 0,
            forall|k: int| 0 <= k < CODE_MAP_LEN ==> #[trigger] r.spec_map()[k] is None,
    {
        let r = MapTree { map: empty_code_map(), tree: VpkTree::empty() };
        r
    }

    /// The codes of a tree and its flattened form.
    pub fn from_tree(t: Option<TreeNode>) -> (r: Result<Self, VpkError>)
        requires
            t matches Some(n) ==> n.wf(),
        ensures
            r matches Ok(m) ==> m.wf() && m.sound(),
            t matches Some(n) ==> (r matches Ok(m) ==> forall|w: u8| #[trigger] n.covers().contains(w) ==> m.spec_map()[w as int] is Some),
            t is None ==> (r matches Ok(m) && m.tree.entries@.len() == 0),
            t matches Some(n) ==> (r is Ok <==> node_fits(n, 0)),
            t matches Some(n) ==> (r matches Ok(m) ==> m.tree.entries@ == flat(n, 0) && tree_map(n, m.spec_map())
                && m.spec_map() == code_map_of(n)),
            r matches Err(e) ==> e == VpkError::BadTreeEncoding,
    {
        match t {
            None => Ok(Self::empty()),
            Some(root) => {
                let mut map = empty_code_map();
                assert(map@ =~= Seq::<Option<(u8, HuffCode)>>::new(256, |k: int| None));
                match root.generate_code(HuffCode::new(), &mut map) {
                    Ok(()) => {},
                    Err(e) => {
                        return Err(e);
                    },
                }
                let mut entries: Vec<TreeEntry> = Vec::new();
                root.flatten(&mut entries);
                let len = entries.len();
                proof {
                    let e = entries@;
                    assert(e.len() == len);
                    assert(e =~= flat(root, 0));
                    assert(exists|n: TreeNode| e == flat(n, 0));
                    assert(e.subrange(0, e.len() as int) =~= e);
                    assert forall|k: int| 0 <= k < CODE_MAP_LEN implies (#[trigger] map@[k] is Some
                        <==> root.covers().contains(k as u8)) by {
                        if root.covers().contains(k as u8) {
                            assert((k as u8) as int == k);
                        }
                    }
                    assert forall|k: int| 0 <= k < CODE_MAP_LEN implies (#[trigger] map@[k] matches Some((w, c))
                        ==> node_path(root, c.bits()) == Some(w)) by {
                        if let Some((w, c)) = map@[k] {
                            assert(c.bits().subrange(0, c.bits().len() as int) =~= c.bits());
                        }
                    }
                    assert forall|k: int| 0 <= k < map@.len() implies (#[trigger] map@[k] matches Some((w, c))
                        ==> code_leads_to(e, e.len() - 1, c.bits()) matches Some(l) && 0 <= l < e.len()
                        && leaf_width(e, l) == w as nat) by {
                        if let Some((w, c)) = map@[k] {
                            assert(c.bits().subrange(0, c.bits().len() as int) =~= c.bits());
                            lemma_flat_path(root, e, 0, c.bits());
                        }
                    }
                }
                Ok(MapTree { map, tree: VpkTree { entries } })
            },
        }
    }

    /// Gives every width seen in `found` that the tree lacks the code of the
    /// smallest greater width the tree has; fails when a seen width exceeds
    /// every width of the tree.
    #[verifier::rlimit(100)]
    pub fn fill_missing(self, found: &Vec<u64>) -> (r: Result<Self, VpkError>)
        requires
            self.wf(),
            self.sound(),
            found@.len() <= CODE_MAP_LEN,
        ensures
            r is Ok <==> forall|w: int|
                0 <= w < found@.len() && found@[w] > 0 ==> exists|k: int|
                    w <= k < CODE_MAP_LEN && #[trigger] self.spec_map()[k] is Some,
            r matches Ok(m) ==> m.wf() && m.sound() && m.tree == self.tree && filled(
                self.spec_map(),
                found@,
                m.spec_map(),
            ),
            r matches Ok(m) ==> forall|w: int|
                0 <= w < found@.len() && found@[w] > 0 ==> #[trigger] m.spec_map()[w] is Some,
            r matches Err(e) ==> e matches VpkError::BadUserTree(EncodeTreeParseErr::Uncovered(_)),
    {
        let ghost orig = self.spec_map();
        let mut this = self;
        let mut max: usize = 0;
        let mut any = false;
        let mut k: usize = 0;
        while k < CODE_MAP_LEN
            invariant
                this.wf(),
                this.sound(),
                this.spec_map() == orig,
                k <= CODE_MAP_LEN,
                any ==> max < CODE_MAP_LEN && orig[max as int] is Some,
                forall|j: int| 0 <= j < k && #[trigger] orig[j] is Some ==> any && j <= max,
            decreases CODE_MAP_LEN - k,
        {
            if this.map[k].is_some() {
                max = k;
                any = true;
            }
            k = k + 1;
        }
        let mut bitsize: usize = 0;
        while bitsize < found.len()
            invariant
                this.wf(),
                this.sound(),
                this.tree == self.tree,
                orig == self.spec_map(),
                orig.len() == CODE_MAP_LEN,
                found@.len() <= CODE_MAP_LEN,
                bitsize <= found@.len(),
                any ==> max < CODE_MAP_LEN && orig[max as int] is Some,
                forall|j: int| 0 <= j < CODE_MAP_LEN && #[trigger] orig[j] is Some ==> any && j <= max,
                forall|j: int| bitsize <= j < CODE_MAP_LEN ==> #[trigger] this.spec_map()[j] == orig[j],
                forall|j: int| 0 <= j < bitsize ==> #[trigger] fill_at(orig, found@, this.spec_map(), j),
                forall|w: int| 0 <= w < bitsize && found@[w] > 0 ==> #[trigger] this.spec_map()[w] is Some,
                forall|w: int|
                    0 <= w < bitsize && found@[w] > 0 ==> exists|k: int|
                        w <= k < CODE_MAP_LEN && #[trigger] orig[k] is Some,
            decreases found@.len() - bitsize,
        {
            if found[bitsize] > 0 {
                if !any || bitsize > max {
                    proof {
                        let b = bitsize as int;
                        assert(!(exists|k: int| b <= k < CODE_MAP_LEN && #[trigger] orig[k] is Some));
                        assert(0 <= b < found@.len() && found@[b] > 0);
                        assert(!(forall|w: int|
                            0 <= w < found@.len() && found@[w] > 0 ==> exists|k: int|
                                w <= k < CODE_MAP_LEN && #[trigger] orig[k] is Some));
                    }
                    return Err(VpkError::BadUserTree(EncodeTreeParseErr::Uncovered(bitsize as u8)));
                }
                let ghost m0 = this.spec_map();
                let mut check = bitsize;
                let mut done = false;
                while check <= max && !done
                    invariant
                        this.wf(),
                        this.sound(),
                        this.tree == self.tree,
                        bitsize <= check,
                        bitsize < found@.len() <= CODE_MAP_LEN,
                        check <= max + 1,
                        max < CODE_MAP_LEN,
                        orig.len() == CODE_MAP_LEN,
                        orig[max as int] is Some,
                        forall|j: int| bitsize <= j < CODE_MAP_LEN ==> #[trigger] m0[j] == orig[j],
                        !done ==> this.spec_map() == m0,
                        !done ==> forall|j: int| bitsize <= j < check ==> #[trigger] orig[j] is None,
                        done ==> this.spec_map() == m0.update(bitsize as int, this.spec_map()[bitsize as int]),
                        done ==> exists|k: int| is_next_present(orig, bitsize as int, k) && this.spec_map()[bitsize as int] == orig[k],
                    decreases max + 1 - check,
                {
                    match this.map[check] {
                        Some(value) => {
                            let ghost before = this.map@;
                            this.map.set(bitsize, Some(value));
                            assert(map_matches(this.map@, this.tree.entries@)) by {
                                assert forall|j: int| 0 <= j < this.map@.len() implies (#[trigger] this.map@[j] matches Some((w, c))
                                    ==> code_leads_to(this.tree.entries@, this.tree.entries@.len() - 1, c.bits()) matches Some(l)
                                    && 0 <= l < this.tree.entries@.len() && leaf_width(this.tree.entries@, l) == w as nat) by {
                                    if j == bitsize {
                                        assert(before[check as int] == Some(value));
                                    } else {
                                        assert(this.map@[j] == before[j]);
                                    }
                                }
                            }
                            assert(is_next_present(orig, bitsize as int, check as int));
                            assert(this.map@ =~= m0.update(bitsize as int, this.map@[bitsize as int]));
                            done = true;
                        },
                        None => {},
                    }
                    check = check + 1;
                }
                proof {
                    if !done {
                        assert(orig[max as int] is None);
                    }
                    let kk = choose|k: int| is_next_present(orig, bitsize as int, k) && this.spec_map()[bitsize as int] == orig[k];
                    assert(orig[kk] is Some);
                    assert(fill_at(orig, found@, this.spec_map(), bitsize as int)) by {
                        if orig[bitsize as int] is Some {
                            assert(kk == bitsize);
                        }
                    }
                    assert forall|j: int| 0 <= j < bitsize implies #[trigger] fill_at(orig, found@, this.spec_map(), j) by {
                        assert(this.spec_map()[j] == m0[j]);
                        assert(fill_at(orig, found@, m0, j));
                    }
                }
            } else {
                proof {
                    assert(fill_at(orig, found@, this.spec_map(), bitsize as int));
                }
            }
            bitsize = bitsize + 1;
        }
        proof {
            assert forall|w: int| 0 <= w < CODE_MAP_LEN implies #[trigger] fill_at(orig, found@, this.spec_map(), w) by {
                if w >= found@.len() {
                    assert(this.spec_map()[w] == orig[w]);
                }
            }
        }
        Ok(this)
    }
}

/// Whether `k` is the smallest width from `w` on that `map` has a code for.
pub open spec fn is_next_present(map: Seq<Option<(u8, HuffCode)>>, w: int, k: int) -> bool {
    &&& w <= k < map.len()
    &&& map[k] is Some
    &&& forall|j: int| w <= j < k ==> #[trigger] map[j] is None
}

/// Entry `w` after filling: a width seen in `found` that `old_map` lacks
/// takes the entry of the next width present; every other entry stays.
pub open spec fn fill_at(
    old_map: Seq<Option<(u8, HuffCode)>>,
    found: Seq<u64>,
    new_map: Seq<Option<(u8, HuffCode)>>,
    w: int,
) -> bool {
    if w < found.len() && found[w] > 0 && old_map[w] is None {
        exists|k: int| is_next_present(old_map, w, k) && new_map[w] == old_map[k]
    } else {
        new_map[w] == old_map[w]
    }
}

/// Every entry of `new_map` is the filled entry of `old_map`.
pub open spec fn filled(
    old_map: Seq<Option<(u8, HuffCode)>>,
    found: Seq<u64>,
    new_map: Seq<Option<(u8, HuffCode)>>,
) -> bool {
    &&& new_map.len() == old_map.len()
    &&& forall|w: int| 0 <= w < CODE_MAP_LEN ==> #[trigger] fill_at(old_map, found, new_map, w)
}

fn empty_code_map() -> (r: Vec<Option<(u8, HuffCode)>>)
    ensures
        r@.len() == CODE_MAP_LEN,
        forall|k: int| 0 <= k < CODE_MAP_LEN ==> #[trigger] r@[k] is None,
{
    let mut map: Vec<Option<(u8, HuffCode)>> = Vec::new();
    let mut i: usize = 0;
    while i < CODE_MAP_LEN
        invariant
            i <= CODE_MAP_LEN,
            map@.len() == i,
            forall|k: int| 0 <= k < i ==> #[trigger] map@[k] is None,
        decreases CODE_MAP_LEN - i,
    {
        map.push(None);
        i = i + 1;
    }
    map
}

/// Whether a character is whitespace by Unicode's `White_Space` property.
pub open spec fn spec_is_whitespace(c: char) -> bool {
    let u = c as u32;
    (0x09 <= u <= 0x0D) || u == 0x20 || u == 0x85 || u == 0xA0 || u == 0x1680 || (0x2000 <= u
        <= 0x200A) || u == 0x2028 || u == 0x2029 || u == 0x202F || u == 0x205F || u == 0x3000
}

/// Relies on `char::is_whitespace`: true exactly for the characters with
/// Unicode's `White_Space` property.
#[verifier::external_body]
fn is_whitespace(c: char) -> (r: bool)
    ensures
        r == spec_is_whitespace(c),
{
    c.is_whitespace()
}

pub open spec fn spec_is_digit(c: char) -> bool {
    '0' <= c <= '9'
}

/// The value of a run of decimal digits.
pub open spec fn decimal_value(s: Seq<char>) -> nat
    decreases s.len(),
{
    if s.len() == 0 {
        0
    } else {
        10 * decimal_value(s.drop_last()) + ((s.last() as u32) - 48) as nat
    }
}

/// The number of digits from `p` on.
pub open spec fn digit_run(s: Seq<char>, p: int) -> nat
    decreases s.len() - p,
{
    if p < 0 || p >= s.len() || !spec_is_digit(s[p]) {
        0
    } else {
        1 + digit_run(s, p + 1)
    }
}

/// A token of the textual form of a tree.
#[derive(Debug, Clone, Copy, PartialEq, Eq, Structural)]
pub enum Token {
    OpenParen,
    CloseParen,
    Comma,
    Whitespace,
    Number(u8),
}

impl Token {
    /// The name of a token in error messages.
    pub open spec fn spec_str(self) -> &'static str {
        match self {
            Token::OpenParen => "(",
            Token::CloseParen => ")",
            Token::Comma => ",",
            Token::Whitespace => "whitespace",
            Token::Number(..) => "number",
        }
    }

    pub fn as_str(&self) -> (r: &'static str)
        ensures
            r == self.spec_str(),
    {
        match self {
            Token::OpenParen => "(",
            Token::CloseParen => ")",
            Token::Comma => ",",
            Token::Whitespace => "whitespace",
            Token::Number(..) => "number",
        }
    }
}

/// A token and the byte offset of its first character.
#[derive(Debug, Clone, Copy, PartialEq, Eq, Structural)]
pub struct LexToken(pub usize, pub Token);

/// The number of bytes of a character in UTF-8.
pub open spec fn utf8_len(c: char) -> nat {
    let u = c as u32;
    if u < 0x80 {
        1
    } else if u < 0x800 {
        2
    } else if u < 0x10000 {
        3
    } else {
        4
    }
}

/// The byte offset of character `i` of a text: the UTF-8 lengths of the
/// characters before it.
pub open spec fn byte_pos(s: Seq<char>, i: int) -> nat
    decreases i,
{
    if i <= 0 || i > s.len() {
        0
    } else {
        byte_pos(s, i - 1) + utf8_len(s[i - 1])
    }
}

fn char_len(c: char) -> (r: u128)
    ensures
        r == utf8_len(c),
{
    let u = c as u32;
    if u < 0x80 {
        1
    } else if u < 0x800 {
        2
    } else if u < 0x10000 {
        3
    } else {
        4
    }
}

fn chars_of(s: &str) -> (r: Vec<char>)
    ensures
        r@ == s@,
{
    let mut out: Vec<char> = Vec::new();
    let mut it = s.chars();
    proof {
        broadcast use vstd::string::axiom_spec_iter;
    }
    loop
        invariant
            it.obeys_prophetic_iter_laws(),
            it.decrease() is Some,
            out@ + it.remaining() == s@,
        decreases it.decrease()->0,
    {
        let ghost before = it.remaining();
        match it.next() {
            Some(c) => {
                proof {
                    broadcast use vstd::string::next_postcondition;
                }
                out.push(c);
                assert(out@ + it.remaining() =~= s@);
            },
            None => {
                proof {
                    broadcast use vstd::string::next_postcondition;
                }
                assert(out@ =~= s@);
                return out;
            },
        }
    }
}

/// The tokens of `s` from character `i` on: parentheses and commas, runs of
/// digits as numbers below 256, whitespace dropped; any other character,
/// or a number too large, is an error.
pub open spec fn lex_spec(s: Seq<char>, i: int) -> Result<Seq<LexToken>, EncodeTreeParseErr>
    decreases (s.len() - i) as nat,
{
    if i < 0 || i >= s.len() {
        Ok(Seq::empty())
    } else {
        let c = s[i];
        if c == '(' || c == ')' || c == ',' {
            let t = if c == '(' {
                Token::OpenParen
            } else if c == ')' {
                Token::CloseParen
            } else {
                Token::Comma
            };
            prepend(seq![LexToken(byte_pos(s, i) as usize, t)], lex_spec(s, i + 1))
        } else if spec_is_whitespace(c) {
            lex_spec(s, i + 1)
        } else if spec_is_digit(c) {
            let n = digit_run(s, i) as int;
            let v = decimal_value(s.subrange(i, i + n));
            if v > 255 {
                Err(EncodeTreeParseErr::LexNum(byte_pos(s, i) as usize))
            } else if n >= 1 && i + n <= s.len() {
                prepend(seq![LexToken(byte_pos(s, i) as usize, Token::Number(v as u8))], lex_spec(s, i + n))
            } else {
                Ok(Seq::empty())
            }
        } else {
            Err(EncodeTreeParseErr::LexUnexp(c, byte_pos(s, i) as usize))
        }
    }
}

/// `o` before the tokens of `r`, or the error of `r`.
pub open spec fn prepend(o: Seq<LexToken>, r: Result<Seq<LexToken>, EncodeTreeParseErr>) -> Result<
    Seq<LexToken>,
    EncodeTreeParseErr,
> {
    match r {
        Ok(t) => Ok(o + t),
        Err(e) => Err(e),
    }
}

/// Splits the text of a tree into tokens, dropping whitespace. Positions
/// are byte offsets in the text.
#[verifier::rlimit(100)]
pub fn lex_treestr(s: &str) -> (r: Result<Vec<LexToken>, EncodeTreeParseErr>)
    ensures
        match lex_spec(s@, 0) {
            Ok(t) => (r matches Ok(v) && v@ == t),
            Err(e) => r == Err::<Vec<LexToken>, EncodeTreeParseErr>(e),
        },
{
    let chars = chars_of(s);
    let n = chars.len();
    let mut output: Vec<LexToken> = Vec::new();
    let mut i: usize = 0;
    let mut bpos: u128 = 0;
    while i < n
        invariant
            n == chars@.len(),
            chars@ == s@,
            i <= n,
            bpos == byte_pos(s@, i as int),
            bpos <= 4 * i,
            lex_spec(s@, 0) == prepend(output@, lex_spec(s@, i as int)),
        decreases n - i,
    {
        let c = chars[i];
        let ghost o0 = output@;
        proof {
            assert(byte_pos(s@, i + 1) == bpos + utf8_len(c));
        }
        if c == '(' || c == ')' || c == ',' {
            let token = if c == '(' {
                Token::OpenParen
            } else if c == ')' {
                Token::CloseParen
            } else {
                Token::Comma
            };
            output.push(LexToken(bpos as usize, token));
            proof {
                match lex_spec(s@, i + 1) {
                    Ok(t) => {
                        assert(o0 + (seq![LexToken(bpos as usize, token)] + t) =~= output@ + t);
                    },
                    Err(_) => {},
                }
            }
            bpos = bpos + char_len(c);
            i = i + 1;
        } else if is_whitespace(c) {
            bpos = bpos + char_len(c);
            i = i + 1;
        } else if '0' <= c && c <= '9' {
            let start = i;
            let start_b = bpos;
            let mut value: u32 = 0;
            let mut too_big = false;
            while i < n && '0' <= chars[i] && chars[i] <= '9'
                invariant
                    n == chars@.len(),
                    chars@ == s@,
                    start < n,
                    start <= i <= n,
                    bpos == byte_pos(s@, i as int),
                    bpos <= 4 * i,
                    spec_is_digit(s@[start as int]),
                    forall|j: int| start <= j < i ==> spec_is_digit(#[trigger] s@[j]),
                    digit_run(s@, start as int) == (i - start) + digit_run(s@, i as int),
                    !too_big ==> value == decimal_value(s@.subrange(start as int, i as int)),
                    !too_big ==> value <= 255,
                    too_big ==> decimal_value(s@.subrange(start as int, i as int)) > 255,
                decreases n - i,
            {
                let d = (chars[i] as u32) - 48;
                proof {
                    let a = s@.subrange(start as int, i as int);
                    let b = s@.subrange(start as int, i + 1);
                    assert(b.drop_last() =~= a);
                    assert(decimal_value(b) == 10 * decimal_value(a) + d);
                    assert(byte_pos(s@, i + 1) == bpos + utf8_len(chars@[i as int]));
                }
                if !too_big {
                    value = 10 * value + d;
                    if value > 255 {
                        too_big = true;
                    }
                }
                bpos = bpos + char_len(chars[i]);
                i = i + 1;
            }
            proof {
                assert(digit_run(s@, i as int) == 0);
                assert(digit_run(s@, start as int) == i - start);
                assert(i - start >= 1);
            }
            if too_big {
                return Err(EncodeTreeParseErr::LexNum(start_b as usize));
            }
            output.push(LexToken(start_b as usize, Token::Number(value as u8)));
            proof {
                match lex_spec(s@, i as int) {
                    Ok(t) => {
                        assert(o0 + (seq![LexToken(start_b as usize, Token::Number(value as u8))] + t) =~= output@ + t);
                    },
                    Err(_) => {},
                }
            }
        } else {
            return Err(EncodeTreeParseErr::LexUnexp(c, bpos as usize));
        }
    }
    Ok(output)
}

/// The tokens that spell a tree.
pub open spec fn node_tokens(t: TreeNode) -> Seq<Token>
    decreases t,
{
    match t {
        TreeNode::Leaf { size, .. } => seq![Token::Number(size)],
        TreeNode::CombinedLeaf { size, .. } => seq![Token::Number(size)],
        TreeNode::Node { left, right, .. } => seq![Token::OpenParen] + node_tokens(*left) + seq![
            Token::Comma,
        ] + node_tokens(*right) + seq![Token::CloseParen],
    }
}

/// The kinds of some tokens, without their positions.
pub open spec fn kinds(toks: Seq<LexToken>) -> Seq<Token> {
    toks.map_values(|t: LexToken| t.1)
}

/// Where a tree spelled by the tokens from `pos` ends, if they spell one.
pub open spec fn tree_end(ks: Seq<Token>, pos: int) -> Option<int>
    decreases ks.len() - pos,
{
    if pos < 0 || pos >= ks.len() {
        None
    } else {
        match ks[pos] {
            Token::Number(_) => Some(pos + 1),
            Token::OpenParen => match tree_end(ks, pos + 1) {
                Some(pos1) => {
                    if pos < pos1 < ks.len() && ks[pos1] == Token::Comma {
                        match tree_end(ks, pos1 + 1) {
                            Some(pos2) => {
                                if pos1 < pos2 < ks.len() && ks[pos2] == Token::CloseParen {
                                    Some(pos2 + 1)
                                } else {
                                    None
                                }
                            },
                            None => None,
                        }
                    } else {
                        None
                    }
                },
                None => None,
            },
            _ => None,
        }
    }
}

/// What parsing `node := NUMBER | '(' node ',' node ')'` from `toks[pos..]`
/// gives: the position after the tree, or the first error, reported with
/// the position of the token where it arose.
pub open spec fn parse_spec(toks: Seq<LexToken>, pos: int) -> Result<int, EncodeTreeParseErr>
    decreases toks.len() - pos,
{
    if pos < 0 || pos >= toks.len() {
        Err(EncodeTreeParseErr::ParseUnexpEnd)
    } else {
        match toks[pos].1 {
            Token::Number(_) => Ok(pos + 1),
            Token::OpenParen => match parse_spec(toks, pos + 1) {
                Err(e) => Err(e),
                Ok(p1) => {
                    if p1 <= pos || p1 >= toks.len() {
                        Err(EncodeTreeParseErr::ParseUnexpEnd)
                    } else if toks[p1].1 != Token::Comma {
                        Err(EncodeTreeParseErr::ParseUnexp(toks[p1].1.spec_str(), toks[p1].0))
                    } else {
                        match parse_spec(toks, p1 + 1) {
                            Err(e) => Err(e),
                            Ok(p2) => {
                                if p2 <= p1 || p2 >= toks.len() {
                                    Err(EncodeTreeParseErr::ParseUnexpEnd)
                                } else if toks[p2].1 != Token::CloseParen {
                                    Err(EncodeTreeParseErr::ParseUnexp(toks[p2].1.spec_str(), toks[p2].0))
                                } else {
                                    Ok(p2 + 1)
                                }
                            },
                        }
                    }
                },
            },
            t => Err(EncodeTreeParseErr::ParseUnexp(t.spec_str(), toks[pos].0)),
        }
    }
}

/// Parses `node := NUMBER | '(' node ',' node ')'` from `toks[pos..]`: the
/// tree and the position after it.
#[verifier::rlimit(100)]
pub fn parse_node(toks: &Vec<LexToken>, pos: usize) -> (r: Result<(TreeNode, usize), EncodeTreeParseErr>)
    requires
        pos <= toks@.len(),
    ensures
        r matches Ok((t, q)) ==> pos < q <= toks@.len() && t.wf() && node_tokens(t) == kinds(
            toks@.subrange(pos as int, q as int),
        ),
        pos == toks@.len() ==> r == Err::<(TreeNode, usize), EncodeTreeParseErr>(EncodeTreeParseErr::ParseUnexpEnd),
        tree_end(kinds(toks@), pos as int) matches Some(q) ==> (r matches Ok((t, q2)) && q2 == q),
        r is Ok <==> tree_end(kinds(toks@), pos as int) is Some,
        r matches Ok((t, q)) ==> parse_spec(toks@, pos as int) == Ok::<int, EncodeTreeParseErr>(q as int),
        r matches Err(e) ==> parse_spec(toks@, pos as int) == Err::<int, EncodeTreeParseErr>(e),
    decreases toks@.len() - pos,
{
    if pos >= toks.len() {
        return Err(EncodeTreeParseErr::ParseUnexpEnd);
    }
    let LexToken(at, token) = toks[pos];
    let ghost ks = kinds(toks@);
    assert(ks[pos as int] == token);
    match token {
        Token::Number(size) => {
            let t = TreeNode::Leaf { size, freq: 0 };
            assert(kinds(toks@.subrange(pos as int, pos + 1)) =~= seq![Token::Number(size)]);
            Ok((t, pos + 1))
        },
        Token::OpenParen => {
            let (left, pos1) = match parse_node(toks, pos + 1) {
                Ok(x) => x,
                Err(e) => {
                    return Err(e);
                },
            };
            if pos1 >= toks.len() {
                return Err(EncodeTreeParseErr::ParseUnexpEnd);
            }
            let LexToken(at1, t1) = toks[pos1];
            assert(ks[pos1 as int] == t1);
            if t1 != Token::Comma {
                return Err(EncodeTreeParseErr::ParseUnexp(t1.as_str(), at1));
            }
            let (right, pos2) = match parse_node(toks, pos1 + 1) {
                Ok(x) => x,
                Err(e) => {
                    return Err(e);
                },
            };
            if pos2 >= toks.len() {
                return Err(EncodeTreeParseErr::ParseUnexpEnd);
            }
            let LexToken(at2, t2) = toks[pos2];
            assert(ks[pos2 as int] == t2);
            if t2 != Token::CloseParen {
                return Err(EncodeTreeParseErr::ParseUnexp(t2.as_str(), at2));
            }
            let ghost lt = node_tokens(left);
            let ghost rt = node_tokens(right);
            let t = TreeNode::Node { freq: 0, left: Box::new(left), right: Box::new(right) };
            proof {
                let all = toks@.subrange(pos as int, pos2 + 1);
                assert(kinds(all) =~= seq![Token::OpenParen] + kinds(toks@.subrange(pos + 1, pos1 as int))
                    + seq![Token::Comma] + kinds(toks@.subrange(pos1 + 1, pos2 as int)) + seq![Token::CloseParen]);
            }
            Ok((t, pos2 + 1))
        },
        _ => Err(EncodeTreeParseErr::ParseUnexp(token.as_str(), at)),
    }
}

/// Parses the textual form of a tree; tokens after a complete tree are
/// ignored.
pub fn parse_treestr(s: &str) -> (r: Result<TreeNode, EncodeTreeParseErr>)
    ensures
        r matches Ok(t) ==> t.wf(),
        lex_spec(s@, 0) matches Err(e) ==> r == Err::<TreeNode, EncodeTreeParseErr>(e),
        lex_spec(s@, 0) matches Ok(x) ==> (r matches Ok(t) ==> exists|q: int|
            0 < q <= x.len() && node_tokens(t) == kinds(x.subrange(0, q))),
        lex_spec(s@, 0) matches Ok(x) ==> (tree_end(kinds(x), 0) matches Some(q) ==> (r matches Ok(t)
            && node_tokens(t) == kinds(x.subrange(0, q)))),
        r is Ok <==> (lex_spec(s@, 0) matches Ok(x) && tree_end(kinds(x), 0) is Some),
        lex_spec(s@, 0) matches Ok(x) ==> (r matches Err(e) ==> parse_spec(x, 0) == Err::<int, EncodeTreeParseErr>(e)),
{
    let lexed = match lex_treestr(s) {
        Ok(l) => l,
        Err(e) => {
            return Err(e);
        },
    };
    match parse_node(&lexed, 0) {
        Ok((t, _)) => Ok(t),
        Err(e) => Err(e),
    }
}

impl MapTree {
    /// The code map and flattened form of a tree given as text.
    pub fn from_text(s: &str) -> (r: Result<Self, VpkError>)
        ensures
            r matches Ok(m) ==> m.wf() && m.sound(),
            lex_spec(s@, 0) matches Err(e) ==> r == Err::<Self, VpkError>(VpkError::BadUserTree(e)),
            lex_spec(s@, 0) matches Ok(x) ==> (tree_end(kinds(x), 0) is None ==> r matches Err(
                VpkError::BadUserTree(_),
            )),
            lex_spec(s@, 0) matches Ok(x) ==> (tree_end(kinds(x), 0) matches Some(q) ==> exists|t: TreeNode|
                #[trigger] node_tokens(t) == kinds(x.subrange(0, q)) && (r is Ok <==> node_fits(t, 0)) && (r matches Ok(m)
                    ==> m.tree.entries@ == flat(t, 0) && tree_map(t, m.spec_map()) && m.spec_map() == code_map_of(t)) && (r is Err ==> r
                    == Err::<Self, VpkError>(VpkError::BadTreeEncoding))),
    {
        let t = match parse_treestr(s) {
            Ok(t) => t,
            Err(e) => {
                return Err(VpkError::BadUserTree(e));
            },
        };
        let ghost tg = t;
        let r = Self::from_tree(Some(t));
        proof {
            if let Ok(x) = lex_spec(s@, 0) {
                if let Some(q) = tree_end(kinds(x), 0) {
                    assert(node_tokens(tg) == kinds(x.subrange(0, q)));
                }
            }
        }
        r
    }
}

/// The offset and length code maps of an encoding.
#[derive(Debug)]
pub struct EncodedMaps {
    pub offsets: MapTree,
    pub lengths: MapTree,
}

/// A code map built from a histogram: the flattened tree and code map of
/// the tree that the Huffman loop builds from the histogram's leaves (none
/// when no width occurs), so every entry's width occurs in it.
pub open spec fn built_map(hist: Seq<u64>, m: MapTree) -> bool {
    &&& (exists|t: TreeNode|
        #[trigger] huffman_of(hist_leaves(hist, hist.len() as int), t) && m.tree.entries@ == flat(t, 0)
            && m.spec_map() == code_map_of(t)) || (m.tree.entries@.len() == 0 && forall|k: int|
        0 <= k < CODE_MAP_LEN ==> #[trigger] m.spec_map()[k] is None)
    &&& forall|k: int|
        0 <= k < CODE_MAP_LEN ==> (#[trigger] m.spec_map()[k] matches Some((w, c)) ==> w < HIST_LEN
            && hist[w as int] > 0)
    &&& (forall|w: int| 0 <= w < HIST_LEN ==> #[trigger] hist[w] == 0) ==> m.tree.entries@.len() == 0
}

/// A code map read from tree text `s`: the flattened tree the text spells,
/// its codes, and the widths of `hist` that it lacks filled in.
pub open spec fn text_map(s: Seq<char>, hist: Seq<u64>, m: MapTree) -> bool {
    &&& lex_spec(s, 0) is Ok
    &&& tree_end(kinds(lex_spec(s, 0)->Ok_0), 0) is Some
    &&& exists|t: TreeNode, map0: Seq<Option<(u8, HuffCode)>>|
        #[trigger] tree_map(t, map0) && node_tokens(t) == kinds(
            lex_spec(s, 0)->Ok_0.subrange(0, tree_end(kinds(lex_spec(s, 0)->Ok_0), 0)->Some_0),
        ) && m.tree.entries@ == flat(t, 0) && map0 == code_map_of(t) && filled(map0, hist, m.spec_map())
}

/// Every entry of a code map gives a width of at most 32.
pub open spec fn widths_fit(map: Seq<Option<(u8, HuffCode)>>) -> bool {
    forall|k: int| 0 <= k < CODE_MAP_LEN ==> (#[trigger] map[k] matches Some((w, c)) ==> w <= 32)
}

/// Tree text that reads as a tree whose codes stay below 32 bits, whose
/// widths are at most 32, and that has, for every width occurring in
/// `hist`, a width at least as large.
pub open spec fn text_fits(s: Seq<char>, hist: Seq<u64>) -> bool {
    &&& lex_spec(s, 0) is Ok
    &&& tree_end(kinds(lex_spec(s, 0)->Ok_0), 0) is Some
    &&& forall|t: TreeNode|
        #[trigger] node_tokens(t) == kinds(
            lex_spec(s, 0)->Ok_0.subrange(0, tree_end(kinds(lex_spec(s, 0)->Ok_0), 0)->Some_0),
        ) ==> {
            &&& node_fits(t, 0)
            &&& forall|x: u8| #[trigger] t.covers().contains(x) ==> x <= 32
            &&& forall|w: int|
                0 <= w < hist.len() && #[trigger] hist[w] > 0 ==> exists|k: int|
                    w <= k < CODE_MAP_LEN && #[trigger] t.covers().contains(k as u8)
        }
}

/// Whether tree text fails to lex or to parse.
pub open spec fn bad_text(s: Seq<char>) -> bool {
    match lex_spec(s, 0) {
        Err(_) => true,
        Ok(x) => tree_end(kinds(x), 0) is None,
    }
}

/// The code map for one histogram: from the given text (with the missing
/// widths filled in), or built from the histogram.
#[verifier::rlimit(100)]
fn map_for(text: Option<&str>, hist: &Vec<u64>) -> (r: Result<MapTree, VpkError>)
    requires
        hist@.len() == HIST_LEN,
        forall|w: int| 0 <= w < HIST_LEN ==> #[trigger] hist@[w] <= 0x10_0000_0000,
    ensures
        r matches Ok(m) ==> m.wf() && m.sound() && forall|w: int|
            0 <= w < HIST_LEN && hist@[w] > 0 ==> #[trigger] m.spec_map()[w] is Some,
        text is None && (forall|w: int| 0 <= w < HIST_LEN ==> #[trigger] hist@[w] == 0) ==> (r matches Ok(
            m,
        ) && m.tree.entries@.len() == 0),
        text is None && nonzero_count(hist@, HIST_LEN as int) <= 32 ==> r is Ok,
        text is None ==> (r matches Ok(m) ==> built_map(hist@, m) && widths_fit(m.spec_map())),
        text matches Some(s) ==> (r matches Ok(m) ==> text_map(s@, hist@, m)),
        text matches Some(s) ==> (text_fits(s@, hist@) ==> (r matches Ok(m) && widths_fit(m.spec_map()))),
        text matches Some(s) ==> (lex_spec(s@, 0) matches Err(e) ==> r == Err::<MapTree, VpkError>(
            VpkError::BadUserTree(e),
        )),
        text matches Some(s) ==> (bad_text(s@) ==> r matches Err(VpkError::BadUserTree(_))),
        r matches Err(e) ==> (e is BadUserTree || e == VpkError::BadTreeEncoding),
{
    match text {
        Some(s) => {
            let m = match MapTree::from_text(s) {
                Ok(m) => m,
                Err(e) => {
                    return Err(e);
                },
            };
            let ghost m0 = m;
            proof {
                if text_fits(s@, hist@) {
                    let x = lex_spec(s@, 0)->Ok_0;
                    let q = tree_end(kinds(x), 0)->Some_0;
                    let t = choose|t: TreeNode|
                        #[trigger] node_tokens(t) == kinds(x.subrange(0, q)) && (m0.tree.entries@ == flat(t, 0)
                            && tree_map(t, m0.spec_map()));
                    assert(node_tokens(t) == kinds(x.subrange(0, q)));
                    assert(tree_map(t, m0.spec_map()));
                    assert forall|w: int| 0 <= w < hist@.len() && hist@[w] > 0 implies exists|k: int|
                        w <= k < CODE_MAP_LEN && #[trigger] m0.spec_map()[k] is Some by {
                        let k = choose|k: int| w <= k < CODE_MAP_LEN && #[trigger] t.covers().contains(k as u8);
                        assert(m0.spec_map()[k] is Some);
                    }
                    assert forall|k: int| 0 <= k < CODE_MAP_LEN implies (#[trigger] m0.spec_map()[k] matches Some((w, c))
                        ==> w <= 32) by {
                        if let Some((w, c)) = m0.spec_map()[k] {
                            lemma_path_covered(t, c.bits());
                        }
                    }
                }
            }
            let r = m.fill_missing(hist);
            proof {
                if r is Ok && text_fits(s@, hist@) {
                    let m1 = r->Ok_0;
                    assert forall|k: int| 0 <= k < CODE_MAP_LEN implies (#[trigger] m1.spec_map()[k] matches Some((w, c))
                        ==> w <= 32) by {
                        assert(crate::encode::huffman::fill_at(m0.spec_map(), hist@, m1.spec_map(), k));
                    }
                }
                if r is Ok {
                    let x = lex_spec(s@, 0)->Ok_0;
                    let q = tree_end(kinds(x), 0)->Some_0;
                    let t = choose|t: TreeNode|
                        #[trigger] node_tokens(t) == kinds(x.subrange(0, q)) && (m0.tree.entries@ == flat(t, 0)
                            && tree_map(t, m0.spec_map()));
                    assert(tree_map(t, m0.spec_map()));
                    assert(node_tokens(t) == kinds(x.subrange(0, q)));
                }
            }
            r
        },
        None => {
            let t = from_found_codes(hist);
            let ghost tg = t;
            proof {
                if let Some(n) = tg {
                    if nonzero_count(hist@, HIST_LEN as int) <= 32 {
                        lemma_fits_by_leaves(n, 0);
                    }
                }
            }
            let r = MapTree::from_tree(t);
            proof {
                if r is Ok && tg is Some {
                    let m = r->Ok_0;
                    let n = tg->Some_0;
                    assert forall|w: int| 0 <= w < HIST_LEN && hist@[w] > 0 implies #[trigger] m.spec_map()[w] is Some by {
                        assert(n.covers().contains(w as u8));
                    }
                    assert forall|k: int| 0 <= k < CODE_MAP_LEN implies (#[trigger] m.spec_map()[k] matches Some((w, c))
                        ==> w < HIST_LEN && hist@[w as int] > 0) by {
                        if let Some((w, c)) = m.spec_map()[k] {
                            lemma_path_covered(n, c.bits());
                        }
                    }
                }
            }
            r
        },
    }
}

/// The codes of a tree are prefix-free: a path that ends on a leaf is no
/// proper prefix of another path that ends on a leaf.
pub proof fn lemma_paths_prefix_free(n: TreeNode, p: Seq<bool>, q: Seq<bool>)
    requires
        node_path(n, p) is Some,
        node_path(n, q) is Some,
        p.len() <= q.len(),
        q.subrange(0, p.len() as int) == p,
    ensures
        p == q,
    decreases n,
{
    if let TreeNode::Node { left, right, .. } = n {
        assert(p[0] == q[0]) by {
            assert(q.subrange(0, p.len() as int)[0] == q[0]);
        }
        assert(q.drop_first().subrange(0, p.drop_first().len() as int) =~= p.drop_first()) by {
            assert forall|i: int| 0 <= i < p.len() - 1 implies #[trigger] q[i + 1] == p[i + 1] by {
                assert(q.subrange(0, p.len() as int)[i + 1] == q[i + 1]);
            }
        }
        if p[0] {
            lemma_paths_prefix_free(*right, p.drop_first(), q.drop_first());
        } else {
            lemma_paths_prefix_free(*left, p.drop_first(), q.drop_first());
        }
        assert(p =~= q) by {
            assert(p == seq![p[0]] + p.drop_first());
            assert(q == seq![q[0]] + q.drop_first());
        }
    } else {
        assert(p.len() == 0 && q.len() == 0);
        assert(p =~= q);
    }
}

/// A leaf that a path reaches is one whose width the tree covers.
pub proof fn lemma_path_covered(n: TreeNode, p: Seq<bool>)
    ensures
        node_path(n, p) matches Some(w) ==> n.covers().contains(w),
    decreases n,
{
    if let TreeNode::Node { left, right, .. } = n {
        if p.len() > 0 {
            lemma_path_covered(*left, p.drop_first());
            lemma_path_covered(*right, p.drop_first());
        }
    }
}

impl EncodedMaps {
    /// Both code maps, each from the given text or from the pass's histogram.
    pub fn new(offsets: Option<&str>, lengths: Option<&str>, pos1: &LzssPass) -> (r: Result<Self, VpkError>)
        requires
            pos1.wf(),
            pos1.buf@.len() <= u32::MAX,
        ensures
            r matches Ok(m) ==> m.offsets.wf() && m.lengths.wf() && m.offsets.sound() && m.lengths.sound() && (forall|w: int|
                0 <= w < HIST_LEN && pos1.moveback_bitfreq@[w] > 0 ==> #[trigger] m.offsets.spec_map()[w] is Some)
                && (forall|w: int|
                0 <= w < HIST_LEN && pos1.size_bitfreq@[w] > 0 ==> #[trigger] m.lengths.spec_map()[w] is Some),
            offsets is None && lengths is None && (forall|w: int| 0 <= w < HIST_LEN ==> #[trigger] pos1.size_bitfreq@[w] == 0)
                && (forall|w: int| 0 <= w < HIST_LEN ==> #[trigger] pos1.moveback_bitfreq@[w] == 0) ==> (r matches Ok(m)
                && m.offsets.tree.entries@.len() == 0 && m.lengths.tree.entries@.len() == 0),
            offsets is None && lengths is None && nonzero_count(pos1.moveback_bitfreq@, HIST_LEN as int) <= 32
                && nonzero_count(pos1.size_bitfreq@, HIST_LEN as int) <= 32 ==> r is Ok,
            r matches Ok(m) ==> (match offsets {
                Some(s) => text_map(s@, pos1.moveback_bitfreq@, m.offsets),
                None => built_map(pos1.moveback_bitfreq@, m.offsets),
            }) && (match lengths {
                Some(s) => text_map(s@, pos1.size_bitfreq@, m.lengths),
                None => built_map(pos1.size_bitfreq@, m.lengths),
            }),
            offsets matches Some(s) ==> (lex_spec(s@, 0) matches Err(e) ==> r == Err::<Self, VpkError>(
                VpkError::BadUserTree(e),
            )),
            offsets matches Some(s) ==> (bad_text(s@) ==> r matches Err(VpkError::BadUserTree(_))),
            lengths matches Some(s) ==> (bad_text(s@) ==> r is Err),
            (match offsets {
                Some(s) => text_fits(s@, pos1.moveback_bitfreq@),
                None => nonzero_count(pos1.moveback_bitfreq@, HIST_LEN as int) <= 32,
            }) && lengths is Some && bad_text(lengths->Some_0@) ==> (r matches Err(VpkError::BadUserTree(_))),
            r matches Err(e) ==> (e is BadUserTree || e == VpkError::BadTreeEncoding),
            (match offsets {
                Some(s) => text_fits(s@, pos1.moveback_bitfreq@),
                None => nonzero_count(pos1.moveback_bitfreq@, HIST_LEN as int) <= 32,
            }) && (match lengths {
                Some(s) => text_fits(s@, pos1.size_bitfreq@),
                None => nonzero_count(pos1.size_bitfreq@, HIST_LEN as int) <= 32,
            }) ==> (r matches Ok(m) && widths_fit(m.offsets.spec_map()) && widths_fit(m.lengths.spec_map())),
            r matches Ok(m) ==> (offsets is None ==> widths_fit(m.offsets.spec_map())) && (lengths is None
                ==> widths_fit(m.lengths.spec_map())),
    {
        proof {
            assert forall|w: int| 0 <= w < HIST_LEN implies #[trigger] pos1.moveback_bitfreq@[w] <= 0x10_0000_0000 by {
                crate::encode::lzss::lemma_count_bound(pos1.buf@, w as nat, true);
            }
            assert forall|w: int| 0 <= w < HIST_LEN implies #[trigger] pos1.size_bitfreq@[w] <= 0x10_0000_0000 by {
                crate::encode::lzss::lemma_count_bound(pos1.buf@, w as nat, false);
            }
        }
        let offsets = match map_for(offsets, &pos1.moveback_bitfreq) {
            Ok(m) => m,
            Err(e) => {
                return Err(e);
            },
        };
        let lengths = match map_for(lengths, &pos1.size_bitfreq) {
            Ok(m) => m,
            Err(e) => {
                return Err(e);
            },
        };
        Ok(EncodedMaps { offsets, lengths })
    }
}

/// The textual form of a sub-tree: a leaf as its width, a node as
/// `(left, right)`.
pub open spec fn node_text(n: TreeNode) -> Seq<char>
    decreases n,
{
    match n {
        TreeNode::Leaf { size, .. } => decimal(size as nat),
        TreeNode::CombinedLeaf { size, .. } => decimal(size as nat),
        TreeNode::Node { left, right, .. } => seq!['('] + node_text(*left) + seq![',', ' ']
            + node_text(*right) + seq![')'],
    }
}

/// A flattened sub-tree renders as the sub-tree's text.
#[verifier::rlimit(100)]
pub proof fn lemma_render_flat(n: TreeNode, e: Seq<TreeEntry>, base: nat)
    requires
        e.len() <= usize::MAX,
        base + flat(n, base).len() <= e.len(),
        e.subrange(base as int, (base + flat(n, base).len()) as int) == flat(n, base),
    ensures
        render(e, base + flat(n, base).len() - 1) == node_text(n),
    decreases n,
{
    let f = flat(n, base);
    lemma_flat_len(n, base);
    let root = base + f.len() - 1;
    assert(e[root] == f[f.len() - 1]) by {
        assert(e.subrange(base as int, (base + f.len()) as int)[f.len() - 1] == f[f.len() - 1]);
    }
    if let TreeNode::Node { left, right, .. } = n {
        let l = flat(*left, base);
        let r = flat(*right, base + l.len());
        lemma_flat_len(*left, base);
        lemma_flat_len(*right, base + l.len());
        let b = base as int;
        assert(e.subrange(b, b + l.len()) =~= l) by {
            assert forall|i: int| 0 <= i < l.len() implies e[b + i] == l[i] by {
                assert(e.subrange(b, b + f.len())[i] == f[i]);
            }
        }
        assert(e.subrange(b + l.len(), b + l.len() + r.len()) =~= r) by {
            assert forall|i: int| 0 <= i < r.len() implies e[b + l.len() + i] == r[i] by {
                assert(e.subrange(b, b + f.len())[l.len() + i] == f[l.len() + i]);
            }
        }
        lemma_render_flat(*left, e, base);
        lemma_render_flat(*right, e, base + l.len());
        assert(f == l + r + seq![
            TreeEntry::Node {
                left: (base + l.len() - 1) as usize,
                right: (base + l.len() + r.len() - 1) as usize,
            },
        ]);
    }
}

/// The numeral of a byte is one to three digits whose value is the byte.
pub proof fn lemma_decimal(v: u8)
    ensures
        1 <= decimal(v as nat).len() <= 3,
        forall|j: int| 0 <= j < decimal(v as nat).len() ==> spec_is_digit(#[trigger] decimal(v as nat)[j]),
        decimal_value(decimal(v as nat)) == v as nat,
{
    let d = decimal(v as nat);
    assert forall|x: nat| x < 10 implies spec_is_digit(#[trigger] digit_char(x)) && (digit_char(x) as u32) - 48 == x by {}
    let x = v as nat;
    if x < 10 {
        assert(d.drop_last() =~= Seq::<char>::empty());
        assert(decimal_value(d) == 10 * decimal_value(d.drop_last()) + x);
    } else if x < 100 {
        let d1 = d.drop_last();
        assert(d1 =~= seq![digit_char(x / 10)]);
        assert(d1.drop_last() =~= Seq::<char>::empty());
        assert(decimal_value(Seq::<char>::empty()) == 0);
        assert((digit_char(x / 10) as u32) - 48 == x / 10);
        assert(decimal_value(d1) == 10 * decimal_value(d1.drop_last()) + ((d1.last() as u32) - 48) as nat);
        assert(decimal_value(d1) == x / 10);
        assert(decimal_value(d) == 10 * (x / 10) + x % 10);
        assert(x == 10 * (x / 10) + x % 10);
    } else {
        let d1 = d.drop_last();
        let d2 = d1.drop_last();
        assert(d1 =~= seq![digit_char(x / 100), digit_char((x / 10) % 10)]);
        assert(d2 =~= seq![digit_char(x / 100)]);
        assert(d2.drop_last() =~= Seq::<char>::empty());
        assert(decimal_value(Seq::<char>::empty()) == 0);
        assert((digit_char(x / 100) as u32) - 48 == x / 100);
        assert(decimal_value(d2) == 10 * decimal_value(d2.drop_last()) + ((d2.last() as u32) - 48) as nat);
        assert(decimal_value(d2) == x / 100);
        assert(decimal_value(d1) == 10 * (x / 100) + (x / 10) % 10);
        assert(decimal_value(d) == 10 * (10 * (x / 100) + (x / 10) % 10) + x % 10);
        assert(x == 100 * (x / 100) + 10 * ((x / 10) % 10) + x % 10);
    }
}

/// A run of `k` digits followed by a non-digit (or the end) is a digit run
/// of length `k`.
pub proof fn lemma_digit_run(s: Seq<char>, i: int, k: int)
    requires
        0 <= i,
        0 <= k,
        i + k <= s.len(),
        forall|j: int| i <= j < i + k ==> spec_is_digit(#[trigger] s[j]),
        i + k == s.len() || !spec_is_digit(s[i + k]),
    ensures
        digit_run(s, i) == k,
    decreases k,
{
    if k > 0 {
        lemma_digit_run(s, i + 1, k - 1);
    }
}

/// `a` then `b` before the tokens of `r`.
pub proof fn lemma_prepend_prepend(a: Seq<LexToken>, b: Seq<LexToken>, r: Result<Seq<LexToken>, EncodeTreeParseErr>)
    ensures
        prepend(a, prepend(b, r)) == prepend(a + b, r),
{
    if let Ok(t) = r {
        assert(a + (b + t) =~= (a + b) + t);
    }
}

/// Lexing the numeral of a leaf gives its number token.
#[verifier::rlimit(100)]
proof fn lemma_lex_leaf(size: u8, s: Seq<char>, i: int)
    requires
        0 <= i,
        i + decimal(size as nat).len() <= s.len(),
        s.subrange(i, i + decimal(size as nat).len()) == decimal(size as nat),
        i + decimal(size as nat).len() == s.len() || !spec_is_digit(s[i + decimal(size as nat).len()]),
    ensures
        lex_spec(s, i) == prepend(
            seq![LexToken(byte_pos(s, i) as usize, Token::Number(size))],
            lex_spec(s, i + decimal(size as nat).len()),
        ),
{
    let t = decimal(size as nat);
    lemma_decimal(size);
    assert forall|j: int| i <= j < i + t.len() implies spec_is_digit(#[trigger] s[j]) by {
        assert(s.subrange(i, i + t.len())[j - i] == t[j - i]);
    }
    lemma_digit_run(s, i, t.len() as int);
    assert(s[i] == t[0]) by {
        assert(s.subrange(i, i + t.len())[0] == t[0]);
    }
}

/// Lexing the text of a node gives the node's tokens.
#[verifier::rlimit(100)]
proof fn lemma_lex_node(n: TreeNode, s: Seq<char>, i: int)
    requires
        n is Node,
        0 <= i,
        i + node_text(n).len() <= s.len(),
        s.subrange(i, i + node_text(n).len()) == node_text(n),
        i + node_text(n).len() == s.len() || !spec_is_digit(s[i + node_text(n).len()]),
    ensures
        exists|x: Seq<LexToken>| kinds(x) == node_tokens(n) && lex_spec(s, i) == prepend(
            x,
            lex_spec(s, i + node_text(n).len()),
        ),
    decreases n, 1nat,
{
    let t = node_text(n);
    assert forall|j: int| 0 <= j < t.len() implies s[i + j] == #[trigger] t[j] by {
        assert(s.subrange(i, i + t.len())[j] == t[j]);
    }
    if let TreeNode::Node { left, right, .. } = n {
            let tl = node_text(*left);
            let tr = node_text(*right);
            assert(t == seq!['('] + tl + seq![',', ' '] + tr + seq![')']);
            assert(t.subrange(1, 1 + tl.len() as int) =~= tl);
            assert(t.subrange(3 + tl.len() as int, 3 + tl.len() + tr.len() as int) =~= tr);
            assert(t[(1 + tl.len()) as int] == ',');
            assert(t[(3 + tl.len() + tr.len()) as int] == ')');
            assert(!spec_is_digit(','));
            assert(!spec_is_digit(')'));
            lemma_lex_text_sub(*left, s, i + 1, tl, t, 1);
            let a = i + 1 + tl.len();
            assert(s[a] == ',') by {
                assert(t[(1 + tl.len()) as int] == ',');
            }
            assert(s[a + 1] == ' ') by {
                assert(t[(2 + tl.len()) as int] == ' ');
            }
            lemma_lex_text_sub(*right, s, a + 2, tr, t, (3 + tl.len()) as int);
            let b = a + 2 + tr.len();
            assert(s[b] == ')') by {
                assert(t[(3 + tl.len() + tr.len()) as int] == ')');
            }
            assert(s[i] == '(') by {
                assert(t[0] == '(');
            }
            let xl = choose|x: Seq<LexToken>| kinds(x) == node_tokens(*left) && lex_spec(s, i + 1) == prepend(x, lex_spec(s, a));
            let xr = choose|x: Seq<LexToken>| kinds(x) == node_tokens(*right) && lex_spec(s, a + 2) == prepend(x, lex_spec(s, b));
            let o = seq![LexToken(byte_pos(s, i) as usize, Token::OpenParen)];
            let c = seq![LexToken(byte_pos(s, a) as usize, Token::Comma)];
            let cl = seq![LexToken(byte_pos(s, b) as usize, Token::CloseParen)];
            assert(spec_is_whitespace(' '));
            assert(lex_spec(s, a + 1) == lex_spec(s, a + 2));
            assert(lex_spec(s, a) == prepend(c, lex_spec(s, a + 1)));
            assert(lex_spec(s, b) == prepend(cl, lex_spec(s, b + 1)));
            assert(lex_spec(s, i) == prepend(o, lex_spec(s, i + 1)));
            lemma_prepend_prepend(xr, cl, lex_spec(s, b + 1));
            lemma_prepend_prepend(c, xr + cl, lex_spec(s, b + 1));
            lemma_prepend_prepend(xl, c + (xr + cl), lex_spec(s, b + 1));
            lemma_prepend_prepend(o, xl + (c + (xr + cl)), lex_spec(s, b + 1));
            let x = o + (xl + (c + (xr + cl)));
            let z = lex_spec(s, b + 1);
            assert(lex_spec(s, a + 2) == prepend(xr + cl, z));
            assert(lex_spec(s, a) == prepend(c + (xr + cl), z));
            assert(lex_spec(s, i + 1) == prepend(xl + (c + (xr + cl)), z));
            assert(lex_spec(s, i) == prepend(x, z));
            assert(kinds(x) =~= node_tokens(n));
            assert(b + 1 == i + t.len());
            }
}

/// Lexing the text of a sub-tree gives the sub-tree's tokens.
#[verifier::rlimit(100)]
pub proof fn lemma_lex_text(n: TreeNode, s: Seq<char>, i: int)
    requires
        0 <= i,
        i + node_text(n).len() <= s.len(),
        s.subrange(i, i + node_text(n).len()) == node_text(n),
        i + node_text(n).len() == s.len() || !spec_is_digit(s[i + node_text(n).len()]),
    ensures
        node_text(n).len() >= 1,
        exists|x: Seq<LexToken>| kinds(x) == node_tokens(n) && lex_spec(s, i) == prepend(
            x,
            lex_spec(s, i + node_text(n).len()),
        ),
    decreases n, 2nat,
{
    let t = node_text(n);
    assert forall|j: int| 0 <= j < t.len() implies s[i + j] == #[trigger] t[j] by {
        assert(s.subrange(i, i + t.len())[j] == t[j]);
    }
    match n {
        TreeNode::Node { .. } => {
            lemma_lex_node(n, s, i);
        },
        _ => {
            let size = match n {
                TreeNode::Leaf { size, .. } => size,
                TreeNode::CombinedLeaf { size, .. } => size,
                _ => 0,
            };
            lemma_lex_leaf(size, s, i);
            let x = seq![LexToken(byte_pos(s, i) as usize, Token::Number(size))];
            assert(kinds(x) =~= seq![Token::Number(size)]);
            assert(node_tokens(n) == seq![Token::Number(size)]);
            assert(t == decimal(size as nat));
        },
    }
}

/// The text of a sub-tree sitting at `at` of a larger text `t` that sits at
/// `i - at` of `s`, followed in `t` by a non-digit.
#[verifier::rlimit(100)]
proof fn lemma_lex_text_sub(n: TreeNode, s: Seq<char>, i: int, sub: Seq<char>, t: Seq<char>, at: int)
    requires
        sub == node_text(n),
        0 <= at,
        at + sub.len() < t.len(),
        t.subrange(at, at + sub.len()) == sub,
        !spec_is_digit(t[at + sub.len()]),
        0 <= i - at,
        i - at + t.len() <= s.len(),
        forall|j: int| 0 <= j < t.len() ==> s[i - at + j] == #[trigger] t[j],
    ensures
        exists|x: Seq<LexToken>| kinds(x) == node_tokens(n) && lex_spec(s, i) == prepend(
            x,
            lex_spec(s, i + sub.len()),
        ),
    decreases n, 3nat,
{
    assert(s.subrange(i, i + sub.len()) =~= sub) by {
        assert forall|j: int| 0 <= j < sub.len() implies s[i + j] == sub[j] by {
            assert(s[i - at + (at + j)] == t[at + j]);
            assert(t.subrange(at, at + sub.len())[j] == t[at + j]);
        }
    }
    assert(s[i + sub.len()] == t[at + sub.len()]) by {
        assert(s[i - at + (at + sub.len())] == t[at + sub.len()]);
    }
    lemma_lex_text(n, s, i);
}

/// The tokens of a sub-tree, wherever they sit, spell a tree that ends
/// right after them.
#[verifier::rlimit(100)]
pub proof fn lemma_tree_end_tokens(n: TreeNode, ks: Seq<Token>, pos: int)
    requires
        0 <= pos,
        pos + node_tokens(n).len() <= ks.len(),
        ks.subrange(pos, pos + node_tokens(n).len()) == node_tokens(n),
    ensures
        tree_end(ks, pos) == Some(pos + node_tokens(n).len()),
    decreases n,
{
    let t = node_tokens(n);
    assert forall|j: int| 0 <= j < t.len() implies ks[pos + j] == #[trigger] t[j] by {
        assert(ks.subrange(pos, pos + t.len())[j] == t[j]);
    }
    if let TreeNode::Node { left, right, .. } = n {
        let tl = node_tokens(*left);
        let tr = node_tokens(*right);
        assert(t == seq![Token::OpenParen] + tl + seq![Token::Comma] + tr + seq![Token::CloseParen]);
        assert(ks[pos] == Token::OpenParen) by {
            assert(t[0] == Token::OpenParen);
        }
        assert(ks.subrange(pos + 1, pos + 1 + tl.len()) =~= tl) by {
            assert forall|j: int| 0 <= j < tl.len() implies ks[pos + 1 + j] == tl[j] by {
                assert(t[1 + j] == tl[j]);
            }
        }
        lemma_tree_end_tokens(*left, ks, pos + 1);
        let pos1 = pos + 1 + tl.len();
        assert(ks[pos1] == Token::Comma) by {
            assert(t[(1 + tl.len()) as int] == Token::Comma);
        }
        assert(ks.subrange(pos1 + 1, pos1 + 1 + tr.len()) =~= tr) by {
            assert forall|j: int| 0 <= j < tr.len() implies ks[pos1 + 1 + j] == tr[j] by {
                assert(t[2 + tl.len() + j] == tr[j]);
            }
        }
        lemma_tree_end_tokens(*right, ks, pos1 + 1);
        let pos2 = pos1 + 1 + tr.len();
        assert(ks[pos2] == Token::CloseParen) by {
            assert(t[(2 + tl.len() + tr.len()) as int] == Token::CloseParen);
        }
    } else {
        assert(ks[pos] == t[0]);
    }
}

/// Sub-trees spelled by the same tokens have the same leaves at the same
/// paths.
#[verifier::rlimit(100)]
pub proof fn lemma_same_tokens(a: TreeNode, b: TreeNode)
    requires
        node_tokens(a) == node_tokens(b),
    ensures
        forall|p: Seq<bool>| #[trigger] node_path(a, p) == node_path(b, p),
    decreases a,
{
    let t = node_tokens(a);
    match a {
        TreeNode::Node { left: al, right: ar, .. } => {
            assert(t[0] == Token::OpenParen);
            match b {
                TreeNode::Node { left: bl, right: br, .. } => {
                    let tal = node_tokens(*al);
                    let tar = node_tokens(*ar);
                    let tbl = node_tokens(*bl);
                    let tbr = node_tokens(*br);
                    assert(t == seq![Token::OpenParen] + tal + seq![Token::Comma] + tar + seq![Token::CloseParen]);
                    assert(t == seq![Token::OpenParen] + tbl + seq![Token::Comma] + tbr + seq![Token::CloseParen]);
                    assert(t.subrange(1, 1 + tal.len() as int) =~= tal);
                    assert(t.subrange(1, 1 + tbl.len() as int) =~= tbl);
                    lemma_tree_end_tokens(*al, t, 1);
                    lemma_tree_end_tokens(*bl, t, 1);
                    assert(tal.len() == tbl.len());
                    assert(tal =~= tbl);
                    let q = 2 + tal.len() as int;
                    assert(t.subrange(q, q + tar.len() as int) =~= tar);
                    assert(tbr.len() == tar.len());
                    assert(t.subrange(q, q + tbr.len() as int) =~= tbr);
                    lemma_same_tokens(*al, *bl);
                    lemma_same_tokens(*ar, *br);
                    assert forall|p: Seq<bool>| #[trigger] node_path(a, p) == node_path(b, p) by {
                        if p.len() > 0 {
                            assert(node_path(*al, p.drop_first()) == node_path(*bl, p.drop_first()));
                            assert(node_path(*ar, p.drop_first()) == node_path(*br, p.drop_first()));
                        }
                    }
                },
                _ => {
                    assert(node_tokens(b)[0] != Token::OpenParen);
                },
            }
        },
        _ => {
            match b {
                TreeNode::Node { .. } => {
                    assert(node_tokens(b)[0] == Token::OpenParen);
                },
                _ => {
                    assert(t[0] == node_tokens(b)[0]);
                },
            }
        },
    }
}

/// Rendering a tree as text and reading the text back gives a tree with the
/// same leaves at the same paths, so the same code for every width: the
/// flattened tree renders as the tree's text, the text lexes to the tree's
/// tokens, those tokens spell one whole tree, and any tree they spell has
/// the tree's paths.
pub proof fn lemma_text_round_trip(n: TreeNode)
    requires
        flat(n, 0).len() <= usize::MAX,
    ensures
        render_tree(flat(n, 0)) == node_text(n),
        lex_spec(node_text(n), 0) matches Ok(x) && kinds(x) == node_tokens(n) && tree_end(
            kinds(x),
            0,
        ) == Some(x.len() as int),
        forall|t: TreeNode|
            node_tokens(t) == node_tokens(n) ==> forall|p: Seq<bool>| #[trigger] node_path(t, p) == node_path(n, p),
{
    let e = flat(n, 0);
    lemma_flat_len(n, 0);
    assert(e.subrange(0, e.len() as int) =~= e);
    lemma_render_flat(n, e, 0);
    let s = node_text(n);
    assert(s.subrange(0, s.len() as int) =~= s);
    lemma_lex_text(n, s, 0);
    let x = choose|x: Seq<LexToken>| kinds(x) == node_tokens(n) && lex_spec(s, 0) == prepend(x, lex_spec(s, s.len() as int));
    assert(lex_spec(s, s.len() as int) == Ok::<Seq<LexToken>, EncodeTreeParseErr>(Seq::empty()));
    assert(x + Seq::<LexToken>::empty() =~= x);
    let ks = kinds(x);
    assert(ks.subrange(0, ks.len() as int) =~= ks);
    lemma_tree_end_tokens(n, ks, 0);
    assert forall|t: TreeNode| node_tokens(t) == node_tokens(n) implies forall|p: Seq<bool>| #[trigger] node_path(t, p) == node_path(n, p) by {
        lemma_same_tokens(t, n);
    }
}

} // verus!
