//! The `vpk0` container: a nine-byte header, then two Huffman trees written
//! in post-order (`0` and eight bits for a leaf, `1` for a node, and a final
//! `1`), then the token stream.
use vstd::arithmetic::power2::pow2;
use vstd::prelude::*;

use crate::bits::{nat_bits, stream_bits, BitReader, BitWriter};
use crate::errors::VpkError;

verus! {

/// How back-reference offsets are written: as one value, or split by four
/// into one or two values.
#[derive(Debug, Clone, Copy, PartialEq, Eq, Hash, Structural)]
pub enum VpkMethod {
    OneSample,
    TwoSample,
}

impl VpkMethod {
    pub open spec fn spec_byte(self) -> u8 {
        match self {
            VpkMethod::OneSample => 0,
            VpkMethod::TwoSample => 1,
        }
    }

    /// The byte that stands for this method in the header.
    pub fn byte(self) -> (r: u8)
        ensures
            r == self.spec_byte(),
    {
        match self {
            VpkMethod::OneSample => 0,
            VpkMethod::TwoSample => 1,
        }
    }
}

/// The information at the start of a `vpk0` file.
#[derive(Debug, Clone, Copy, PartialEq, Eq, Structural)]
pub struct VpkHeader {
    /// Size of the decompressed data.
    pub size: u32,
    pub method: VpkMethod,
}

/// The magic bytes `vpk0`.
pub open spec fn magic() -> Seq<u8> {
    seq![0x76u8, 0x70u8, 0x6bu8, 0x30u8]
}

/// A big-endian number of four bytes.
pub open spec fn be_u32(b: Seq<u8>) -> nat {
    b[0] as nat * 0x1000000 + b[1] as nat * 0x10000 + b[2] as nat * 0x100 + b[3] as nat
}

/// Whether every byte is below 128.
pub open spec fn all_ascii(b: Seq<u8>) -> bool {
    forall|i: int| 0 <= i < b.len() ==> #[trigger] b[i] < 128
}

/// ASCII bytes read as characters.
pub open spec fn ascii_chars(b: Seq<u8>) -> Seq<char> {
    b.map_values(|c: u8| c as char)
}

/// What the UTF-8 decoding of some bytes yields, if they are valid UTF-8.
pub uninterp spec fn utf8_text(b: Seq<u8>) -> Option<Seq<char>>;

/// Relies on `std::str::from_utf8`: it succeeds exactly on valid UTF-8, its
/// text depends on the bytes alone, and ASCII bytes are their own
/// characters.
#[verifier::external_body]
fn text_of(b: &[u8]) -> (r: Option<String>)
    ensures
        r is Some <==> utf8_text(b@) is Some,
        r matches Some(s) ==> s@ == utf8_text(b@)->Some_0,
        r is Some || !all_ascii(b@),
        r matches Some(s) ==> (all_ascii(b@) ==> s@ == ascii_chars(b@)),
{
    std::str::from_utf8(b).ok().map(String::from)
}

/// The bits of a header on the wire.
pub open spec fn header_bits(h: VpkHeader) -> Seq<bool> {
    nat_bits(0x76, 8) + nat_bits(0x70, 8) + nat_bits(0x6b, 8) + nat_bits(0x30, 8) + nat_bits(
        h.size as nat,
        32,
    ) + nat_bits(h.method.spec_byte() as nat, 8)
}

/// Whether nine header bytes hold the magic and a known method.
pub open spec fn header_valid(arr: Seq<u8>) -> bool {
    arr.subrange(0, 4) == magic() && arr[8] <= 1
}

/// The header that valid header bytes describe.
pub open spec fn header_of(arr: Seq<u8>) -> VpkHeader {
    VpkHeader {
        size: be_u32(arr.subrange(4, 8)) as u32,
        method: if arr[8] == 0 {
            VpkMethod::OneSample
        } else {
            VpkMethod::TwoSample
        },
    }
}

/// The error that invalid header bytes give: `Utf8Error` or `InvalidHeader`
/// for bad magic (holding the magic as characters when it is ASCII), else
/// `InvalidMethod`.
pub open spec fn header_error<T>(arr: Seq<u8>, r: Result<T, VpkError>) -> bool {
    if arr.subrange(0, 4) != magic() && all_ascii(arr.subrange(0, 4)) {
        r matches Err(VpkError::InvalidHeader(s)) && s@ == ascii_chars(arr.subrange(0, 4))
    } else if arr.subrange(0, 4) != magic() {
        match utf8_text(arr.subrange(0, 4)) {
            None => r == Err::<T, VpkError>(VpkError::Utf8Error),
            Some(t) => (r matches Err(VpkError::InvalidHeader(s)) && s@ == t),
        }
    } else {
        r == Err::<T, VpkError>(VpkError::InvalidMethod(arr[8]))
    }
}

impl VpkHeader {
    /// Parses a header from its nine bytes: magic, big-endian size, method.
    #[verifier::rlimit(100)]
    pub fn from_array(arr: &[u8; 9]) -> (r: Result<Self, VpkError>)
        ensures
            header_valid(arr@) ==> r == Ok::<Self, VpkError>(header_of(arr@)),
            !header_valid(arr@) ==> header_error(arr@, r),
    {
        let name = [arr[0], arr[1], arr[2], arr[3]];
        assert(name@ =~= arr@.subrange(0, 4));
        if !(arr[0] == 0x76 && arr[1] == 0x70 && arr[2] == 0x6b && arr[3] == 0x30) {
            assert(name@ != magic()) by {
                if name@ == magic() {
                    assert(name@[0] == magic()[0] && name@[1] == magic()[1]);
                    assert(name@[2] == magic()[2] && name@[3] == magic()[3]);
                }
            }
            return match text_of(name.as_slice()) {
                None => Err(VpkError::Utf8Error),
                Some(s) => Err(VpkError::InvalidHeader(s)),
            };
        }
        assert(arr@.subrange(0, 4) =~= magic());
        let size = (arr[4] as u32) * 0x1000000 + (arr[5] as u32) * 0x10000 + (arr[6] as u32)
            * 0x100 + (arr[7] as u32);
        let method = match arr[8] {
            0 => VpkMethod::OneSample,
            1 => VpkMethod::TwoSample,
            unk => {
                return Err(VpkError::InvalidMethod(unk));
            },
        };
        Ok(VpkHeader { size, method })
    }

    /// Writes the header: magic, 32-bit size, 8-bit method.
    pub fn write(&self, wtr: &mut BitWriter)
        requires
            old(wtr).wf(),
        ensures
            final(wtr).wf(),
            final(wtr).written() == old(wtr).written() + header_bits(*self),
    {
        proof {
            vstd::arithmetic::power2::lemma2_to64();
        }
        wtr.write_bits(8, 0x76);
        wtr.write_bits(8, 0x70);
        wtr.write_bits(8, 0x6b);
        wtr.write_bits(8, 0x30);
        wtr.write_bits(32, self.size);
        wtr.write_bits(8, self.method.byte() as u32);
        assert(final(wtr).written() =~= old(wtr).written() + header_bits(*self));
    }
}

/// A Huffman tree node or leaf, stored in an array; a node's fields index
/// earlier entries.
#[derive(Debug, Clone, Copy, PartialEq, Eq, Structural)]
pub enum TreeEntry {
    Node { left: usize, right: usize },
    Leaf(u8),
}

/// Each node refers only to entries before it.
pub open spec fn entries_wf(e: Seq<TreeEntry>) -> bool {
    forall|i: int|
        0 <= i < e.len() ==> (#[trigger] e[i] matches TreeEntry::Node { left, right } ==> left
            < i && right < i)
}

/// The wire bits of one entry.
pub open spec fn entry_bits(e: TreeEntry) -> Seq<bool> {
    match e {
        TreeEntry::Leaf(v) => seq![false] + nat_bits(v as nat, 8),
        TreeEntry::Node { .. } => seq![true],
    }
}

/// The wire bits of a run of entries, without the final `1`.
pub open spec fn entries_bits(e: Seq<TreeEntry>) -> Seq<bool>
    decreases e.len(),
{
    if e.len() == 0 {
        Seq::empty()
    } else {
        entries_bits(e.drop_last()) + entry_bits(e.last())
    }
}

pub proof fn lemma_entries_bits_one(x: TreeEntry)
    ensures
        entries_bits(seq![x]) == entry_bits(x),
{
    assert(seq![x].drop_last() =~= Seq::<TreeEntry>::empty());
    assert(entries_bits(seq![x]) == entries_bits(seq![x].drop_last()) + entry_bits(x));
    assert(entries_bits(Seq::<TreeEntry>::empty()) =~= Seq::<bool>::empty());
    assert(entries_bits(seq![x]) =~= entry_bits(x));
}

/// The wire bits of two runs of entries are those of each.
pub proof fn lemma_entries_bits_concat(a: Seq<TreeEntry>, b: Seq<TreeEntry>)
    ensures
        entries_bits(a + b) == entries_bits(a) + entries_bits(b),
    decreases b.len(),
{
    if b.len() == 0 {
        assert(a + b =~= a);
        assert(entries_bits(a) + entries_bits(b) =~= entries_bits(a));
    } else {
        lemma_entries_bits_concat(a, b.drop_last());
        assert((a + b).drop_last() =~= a + b.drop_last());
        assert(entries_bits(a + b) =~= entries_bits(a) + entries_bits(b));
    }
}

/// The wire bits of a whole tree.
pub open spec fn tree_bits(e: Seq<TreeEntry>) -> Seq<bool> {
    entries_bits(e).push(true)
}

/// The result of reading a tree from `bits` at `pos`, with `e` read so far
/// and `stack` the sub-trees not yet combined: the entries and the position
/// after the tree, or `None` when the bits run out first.
pub open spec fn parse_tree(bits: Seq<bool>, pos: int, e: Seq<TreeEntry>, stack: Seq<usize>) -> Option<
    (Seq<TreeEntry>, int),
>
    decreases bits.len() - pos,
{
    if pos < 0 || pos >= bits.len() {
        None
    } else if bits[pos] {
        if stack.len() < 2 {
            Some((e, pos + 1))
        } else {
            let right = stack.last();
            let left = stack.drop_last().last();
            parse_tree(
                bits,
                pos + 1,
                e.push(TreeEntry::Node { left, right }),
                stack.drop_last().drop_last().push(e.len() as usize),
            )
        }
    } else if pos + 9 > bits.len() {
        None
    } else {
        parse_tree(
            bits,
            pos + 9,
            e.push(TreeEntry::Leaf(bits_value(bits.subrange(pos + 1, pos + 9)) as u8)),
            stack.push(e.len() as usize),
        )
    }
}

/// The number whose binary form, most significant bit first, is `s`.
pub open spec fn bits_value(s: Seq<bool>) -> nat
    decreases s.len(),
{
    if s.len() == 0 {
        0
    } else {
        2 * bits_value(s.drop_last()) + (if s.last() { 1nat } else { 0nat })
    }
}

/// The leaf reached by walking from entry `idx` along `bits` from `pos`
/// (0 left, 1 right): its index and the position after the walk, or `None`
/// when the bits run out.
pub open spec fn walk(e: Seq<TreeEntry>, idx: int, bits: Seq<bool>, pos: int) -> Option<(int, int)>
    decreases idx,
{
    if idx < 0 || idx >= e.len() {
        None
    } else {
        match e[idx] {
            TreeEntry::Leaf(_) => Some((idx, pos)),
            TreeEntry::Node { left, right } => {
                if pos < 0 || pos >= bits.len() {
                    None
                } else {
                    let next = if bits[pos] {
                        right as int
                    } else {
                        left as int
                    };
                    if next < idx {
                        walk(e, next, bits, pos + 1)
                    } else {
                        None
                    }
                }
            },
        }
    }
}

/// The leaf that a whole code leads to from entry `idx`, if it ends on one.
pub open spec fn code_leads_to(e: Seq<TreeEntry>, idx: int, code: Seq<bool>) -> Option<int>
    decreases code.len(),
{
    if idx < 0 || idx >= e.len() {
        None
    } else {
        match e[idx] {
            TreeEntry::Leaf(_) => {
                if code.len() == 0 {
                    Some(idx)
                } else {
                    None
                }
            },
            TreeEntry::Node { left, right } => {
                if code.len() == 0 {
                    None
                } else {
                    let next = if code[0] {
                        right as int
                    } else {
                        left as int
                    };
                    if next < idx {
                        code_leads_to(e, next, code.drop_first())
                    } else {
                        None
                    }
                }
            },
        }
    }
}

/// Walking along bits that spell a code reaches the leaf the code leads to.
pub proof fn lemma_walk_code(e: Seq<TreeEntry>, idx: int, code: Seq<bool>, bits: Seq<bool>, pos: int)
    requires
        code_leads_to(e, idx, code) is Some,
        0 <= pos,
        pos + code.len() <= bits.len(),
        bits.subrange(pos, pos + code.len()) == code,
    ensures
        walk(e, idx, bits, pos) == Some((code_leads_to(e, idx, code)->Some_0, pos + code.len())),
    decreases code.len(),
{
    if let TreeEntry::Node { left, right } = e[idx] {
        assert(bits[pos] == code[0]) by {
            assert(bits.subrange(pos, pos + code.len())[0] == code[0]);
        }
        let next = if code[0] {
            right as int
        } else {
            left as int
        };
        assert(bits.subrange(pos + 1, pos + 1 + code.drop_first().len()) =~= code.drop_first()) by {
            assert forall|i: int| 0 <= i < code.drop_first().len() implies bits[pos + 1 + i]
                == code.drop_first()[i] by {
                assert(bits.subrange(pos, pos + code.len())[1 + i] == code[1 + i]);
            }
        }
        lemma_walk_code(e, next, code.drop_first(), bits, pos + 1);
    }
}

/// The payload of the leaf at `idx`.
pub open spec fn leaf_width(e: Seq<TreeEntry>, idx: int) -> nat {
    match e[idx] {
        TreeEntry::Leaf(w) => w as nat,
        _ => 0,
    }
}

/// The one-byte decimal numeral of a digit.
pub open spec fn digit_char(d: nat) -> char {
    if d == 0 {
        '0'
    } else if d == 1 {
        '1'
    } else if d == 2 {
        '2'
    } else if d == 3 {
        '3'
    } else if d == 4 {
        '4'
    } else if d == 5 {
        '5'
    } else if d == 6 {
        '6'
    } else if d == 7 {
        '7'
    } else if d == 8 {
        '8'
    } else {
        '9'
    }
}

/// The decimal numeral of a byte, without leading zeros.
pub open spec fn decimal(v: nat) -> Seq<char> {
    if v < 10 {
        seq![digit_char(v)]
    } else if v < 100 {
        seq![digit_char(v / 10), digit_char(v % 10)]
    } else {
        seq![digit_char(v / 100), digit_char((v / 10) % 10), digit_char(v % 10)]
    }
}

/// The textual form of the sub-tree at `idx`: a leaf as its number, a node
/// as `(left, right)`.
pub open spec fn render(e: Seq<TreeEntry>, idx: int) -> Seq<char>
    decreases idx,
{
    if idx < 0 || idx >= e.len() {
        Seq::empty()
    } else {
        match e[idx] {
            TreeEntry::Leaf(v) => decimal(v as nat),
            TreeEntry::Node { left, right } => {
                if left < idx && right < idx {
                    seq!['('] + render(e, left as int) + seq![',', ' '] + render(e, right as int)
                        + seq![')']
                } else {
                    Seq::empty()
                }
            },
        }
    }
}

/// The textual form of a whole tree; `()` when it is empty.
pub open spec fn render_tree(e: Seq<TreeEntry>) -> Seq<char> {
    if e.len() == 0 {
        seq!['(', ')']
    } else {
        render(e, e.len() - 1)
    }
}

/// Relies on `String`'s `FromIterator<&char>`: the string holds the
/// characters in order.
#[verifier::external_body]
pub(crate) fn string_from_chars(v: &Vec<char>) -> (r: String)
    ensures
        r@ == v@,
{
    String::from_iter(v.iter())
}

fn digit(d: u8) -> (r: char)
    requires
        d < 10,
    ensures
        r == digit_char(d as nat),
{
    match d {
        0 => '0',
        1 => '1',
        2 => '2',
        3 => '3',
        4 => '4',
        5 => '5',
        6 => '6',
        7 => '7',
        8 => '8',
        _ => '9',
    }
}

fn push_decimal(out: &mut Vec<char>, v: u8)
    ensures
        final(out)@ == old(out)@ + decimal(v as nat),
{
    if v < 10 {
        out.push(digit(v));
    } else if v < 100 {
        out.push(digit(v / 10));
        out.push(digit(v % 10));
    } else {
        out.push(digit(v / 100));
        out.push(digit((v / 10) % 10));
        out.push(digit(v % 10));
    }
    assert(final(out)@ =~= old(out)@ + decimal(v as nat));
}

/// An array-based Huffman tree whose root is the last entry.
#[derive(Debug, Clone, PartialEq, Eq)]
pub struct VpkTree {
    pub entries: Vec<TreeEntry>,
}

impl VpkTree {
    pub open spec fn wf(&self) -> bool {
        entries_wf(self.entries@)
    }

    /// An empty tree, written as a single `1` bit.
    pub fn empty() -> (r: Self)
        ensures
            r.entries@.len() == 0,
            r.wf(),
    {
        VpkTree { entries: Vec::new() }
    }

    /// Reads a tree: a `0` bit and eight more make a leaf, a `1` bit joins
    /// the last two sub-trees, and a `1` with fewer than two ends the tree.
    #[verifier::rlimit(100)]
    pub fn from_bitreader(bits: &mut BitReader) -> (r: Result<Self, VpkError>)
        requires
            old(bits).wf(),
        ensures
            final(bits).wf(),
            final(bits).data() == old(bits).data(),
            read_tree_ok(
                stream_bits(old(bits).data()),
                old(bits).pos() as int,
                r,
                final(bits).pos() as int,
            ),
    {
        let ghost all = stream_bits(bits.data());
        let ghost pos0 = bits.pos() as int;
        let mut entries: Vec<TreeEntry> = Vec::new();
        let mut buf: Vec<usize> = Vec::new();
        loop
            invariant
                bits.wf(),
                bits.data() == old(bits).data(),
                all == stream_bits(bits.data()),
                pos0 == old(bits).pos(),
                entries_wf(entries@),
                forall|k: int| 0 <= k < buf@.len() ==> (#[trigger] buf@[k]) < entries@.len(),
                parse_tree(all, pos0, Seq::empty(), Seq::empty()) == parse_tree(
                    all,
                    bits.pos() as int,
                    entries@,
                    buf@,
                ),
            decreases all.len() - bits.pos(),
        {
            let ghost p = bits.pos() as int;
            let ghost e0 = entries@;
            let ghost s0 = buf@;
            let new_entry_idx = entries.len();
            let bit = match bits.read_bit() {
                Ok(b) => b,
                Err(e) => {
                    assert(parse_tree(all, p, e0, s0) is None);
                    return Err(e);
                },
            };
            assert(bit == all[p]);
            if bit {
                if buf.len() < 2 {
                    assert(parse_tree(all, p, e0, s0) == Some((e0, p + 1)));
                    assert(entries_wf(entries@));
                    return Ok(VpkTree { entries });
                }
                let right = buf.pop().unwrap();
                let left = buf.pop().unwrap();
                entries.push(TreeEntry::Node { left, right });
            } else {
                if !bits.has_bits(8) {
                    assert(parse_tree(all, p, e0, s0) is None);
                    return Err(VpkError::Io);
                }
                let v = match bits.read_bits(8) {
                    Ok(v) => v,
                    Err(e) => {
                        return Err(e);
                    },
                };
                proof {
                    lemma_bits_value_of(v as nat, 8);
                    vstd::arithmetic::power2::lemma2_to64();
                }
                entries.push(TreeEntry::Leaf(v as u8));
            }
            buf.push(new_entry_idx);
            proof {
                if bit {
                    assert(buf@ =~= s0.drop_last().drop_last().push(e0.len() as usize));
                } else {
                    assert(buf@ =~= s0.push(e0.len() as usize));
                }
            }
        }
    }

    /// Walks from the root along the bits to a leaf, then reads as many bits
    /// as the leaf says; an empty tree yields 0 and reads nothing.
    #[verifier::rlimit(100)]
    pub fn read_value(&self, bits: &mut BitReader) -> (r: Result<u32, VpkError>)
        requires
            self.wf(),
            old(bits).wf(),
        ensures
            final(bits).wf(),
            final(bits).data() == old(bits).data(),
            value_result(
                tree_value(self.entries@, stream_bits(old(bits).data()), old(bits).pos() as int),
                r,
                final(bits).pos() as int,
            ),
            r is Ok ==> final(bits).pos() >= old(bits).pos(),
    {
        let len = self.entries.len();
        if len == 0 {
            return Ok(0);
        }
        let ghost all = stream_bits(bits.data());
        let ghost pos0 = bits.pos() as int;
        let mut idx = len - 1;
        loop
            invariant
                self.wf(),
                bits.wf(),
                bits.data() == old(bits).data(),
                all == stream_bits(bits.data()),
                pos0 == old(bits).pos(),
                bits.pos() >= pos0,
                idx < self.entries@.len(),
                walk(self.entries@, self.entries@.len() - 1, all, pos0) == walk(
                    self.entries@,
                    idx as int,
                    all,
                    bits.pos() as int,
                ),
            decreases idx,
        {
            let ghost p = bits.pos() as int;
            match self.entries[idx] {
                TreeEntry::Leaf(size) => {
                    assert(walk(self.entries@, idx as int, all, p) == Some((idx as int, p)));
                    if size > 32 {
                        return Err(VpkError::BadTreeEncoding);
                    }
                    let r = bits.read_bits(size as u32);
                    proof {
                        if r is Ok {
                            lemma_bits_value_of(r->Ok_0 as nat, size as nat);
                        }
                    }
                    return r;
                },
                TreeEntry::Node { left, right } => {
                    let b = match bits.read_bit() {
                        Ok(b) => b,
                        Err(e) => {
                            assert(walk(self.entries@, idx as int, all, p) is None);
                            return Err(e);
                        },
                    };
                    assert(b == all[p]);
                    if b {
                        idx = right;
                    } else {
                        idx = left;
                    }
                },
            }
        }
    }

    /// Writes the entries in order, then the closing `1`.
    pub fn write(&self, wtr: &mut BitWriter)
        requires
            old(wtr).wf(),
        ensures
            final(wtr).wf(),
            final(wtr).written() == old(wtr).written() + tree_bits(self.entries@),
    {
        let mut i: usize = 0;
        while i < self.entries.len()
            invariant
                wtr.wf(),
                i <= self.entries@.len(),
                wtr.written() == old(wtr).written() + entries_bits(self.entries@.subrange(0, i as int)),
            decreases self.entries@.len() - i,
        {
            proof {
                assert(self.entries@.subrange(0, i + 1).drop_last() =~= self.entries@.subrange(0, i as int));
                vstd::arithmetic::power2::lemma2_to64();
            }
            match self.entries[i] {
                TreeEntry::Leaf(val) => {
                    wtr.write_bit(false);
                    wtr.write_bits(8, val as u32);
                },
                TreeEntry::Node { .. } => {
                    wtr.write_bit(true);
                },
            }
            i = i + 1;
            assert(wtr.written() =~= old(wtr).written() + entries_bits(self.entries@.subrange(0, i as int)));
        }
        wtr.write_bit(true);
        assert(self.entries@.subrange(0, self.entries@.len() as int) =~= self.entries@);
        assert(wtr.written() =~= old(wtr).written() + tree_bits(self.entries@));
    }

    fn format_entry(&self, entry: usize, out: &mut Vec<char>)
        requires
            self.wf(),
            entry < self.entries@.len(),
        ensures
            final(out)@ == old(out)@ + render(self.entries@, entry as int),
        decreases entry,
    {
        match self.entries[entry] {
            TreeEntry::Leaf(val) => {
                push_decimal(out, val);
            },
            TreeEntry::Node { left, right } => {
                out.push('(');
                self.format_entry(left, out);
                out.push(',');
                out.push(' ');
                self.format_entry(right, out);
                out.push(')');
            },
        }
        assert(final(out)@ =~= old(out)@ + render(self.entries@, entry as int));
    }

    /// The textual form of the tree, such as `(1, (4, 7))`; `()` when empty.
    pub fn to_text(&self) -> (r: String)
        requires
            self.wf(),
        ensures
            r@ == render_tree(self.entries@),
    {
        let mut out: Vec<char> = Vec::new();
        if self.entries.len() == 0 {
            out.push('(');
            out.push(')');
        } else {
            self.format_entry(self.entries.len() - 1, &mut out);
        }
        assert(out@ =~= render_tree(self.entries@));
        string_from_chars(&out)
    }
}

/// What reading a tree gives: the entries that `parse_tree` finds and the
/// position after them, or `Io` when the bits run out.
pub open spec fn read_tree_ok(bits: Seq<bool>, pos: int, r: Result<VpkTree, VpkError>, end: int) -> bool {
    match parse_tree(bits, pos, Seq::empty(), Seq::empty()) {
        None => r == Err::<VpkTree, VpkError>(VpkError::Io),
        Some((e, q)) => r matches Ok(t) && t.entries@ == e && end == q && t.wf(),
    }
}

/// Reading one value through a tree at `pos`: the value and the position
/// after it, or the error.
pub open spec fn tree_value(e: Seq<TreeEntry>, bits: Seq<bool>, pos: int) -> Result<(nat, int), VpkError> {
    if e.len() == 0 {
        Ok((0, pos))
    } else {
        match walk(e, e.len() - 1, bits, pos) {
            None => Err(VpkError::Io),
            Some((leaf, p)) => {
                let w = leaf_width(e, leaf);
                if w > 32 {
                    Err(VpkError::BadTreeEncoding)
                } else if p + w > bits.len() {
                    Err(VpkError::Io)
                } else {
                    Ok((bits_value(bits.subrange(p, p + w)), p + w))
                }
            },
        }
    }
}

/// A value read through a tree, as `read_value` returns it.
pub open spec fn value_result(t: Result<(nat, int), VpkError>, r: Result<u32, VpkError>, end: int) -> bool {
    match t {
        Ok((v, q)) => (r matches Ok(x) && x as nat == v) && end == q,
        Err(x) => r == Err::<u32, VpkError>(x),
    }
}

/// A number below `2^n` is the value of its `n`-bit form.
pub proof fn lemma_bits_value_of(v: nat, n: nat)
    requires
        v < pow2(n),
    ensures
        bits_value(nat_bits(v, n)) == v,
    decreases n,
{
    vstd::arithmetic::power2::lemma2_to64();
    if n == 0 {
        assert(v == 0);
    } else {
        let h = v / 2;
        let b = v % 2 == 1;
        assert(v == 2 * h + (if b { 1nat } else { 0nat })) by {
            vstd::arithmetic::div_mod::lemma_fundamental_div_mod(v as int, 2);
        }
        assert(h < pow2((n - 1) as nat)) by {
            vstd::arithmetic::power2::lemma_pow2_unfold(n);
        }
        crate::bits::lemma_nat_bits_push(h, (n - 1) as nat, b);
        lemma_bits_value_of(h, (n - 1) as nat);
        assert(nat_bits(v, n).drop_last() =~= nat_bits(h, (n - 1) as nat));
    }
}

/// The eight bits of byte `k` of a stream are the byte's binary form.
pub proof fn lemma_stream_byte(bytes: Seq<u8>, k: int)
    requires
        0 <= k < bytes.len(),
    ensures
        stream_bits(bytes).subrange(8 * k, 8 * k + 8) == nat_bits(bytes[k] as nat, 8),
{
    assert forall|j: int| 0 <= j < 8 implies #[trigger] stream_bits(bytes).subrange(8 * k, 8 * k + 8)[j]
        == nat_bits(bytes[k] as nat, 8)[j] by {
        assert((8 * k + j) / 8 == k && (8 * k + j) % 8 == j);
    }
    assert(stream_bits(bytes).subrange(8 * k, 8 * k + 8) =~= nat_bits(bytes[k] as nat, 8));
}

/// Numbers below `2^n` with the same `n`-bit form are equal.
pub proof fn lemma_nat_bits_injective(a: nat, b: nat, n: nat)
    requires
        a < pow2(n),
        b < pow2(n),
        nat_bits(a, n) == nat_bits(b, n),
    ensures
        a == b,
{
    lemma_bits_value_of(a, n);
    lemma_bits_value_of(b, n);
}

/// The value of two runs of bits one after the other.
pub proof fn lemma_bits_value_concat(a: Seq<bool>, b: Seq<bool>)
    ensures
        bits_value(a + b) == bits_value(a) * pow2(b.len()) + bits_value(b),
    decreases b.len(),
{
    vstd::arithmetic::power2::lemma2_to64();
    if b.len() == 0 {
        assert(a + b =~= a);
    } else {
        lemma_bits_value_concat(a, b.drop_last());
        assert((a + b).drop_last() =~= a + b.drop_last());
        assert((a + b).last() == b.last());
        vstd::arithmetic::power2::lemma_pow2_unfold(b.len());
        let x = bits_value(a);
        let p = pow2((b.len() - 1) as nat);
        assert(2 * (x * p) == x * (2 * p)) by (nonlinear_arith);
    }
}

/// Bytes whose first 72 bits are a header's bits hold that header.
#[verifier::rlimit(100)]
pub proof fn lemma_header_from_bits(bytes: Seq<u8>, h: VpkHeader)
    requires
        bytes.len() >= 9,
        stream_bits(bytes).subrange(0, 72) == header_bits(h),
    ensures
        header_valid(bytes.subrange(0, 9)),
        header_of(bytes.subrange(0, 9)) == h,
{
    vstd::arithmetic::power2::lemma2_to64();
    let all = stream_bits(bytes);
    let hb = header_bits(h);
    let arr = bytes.subrange(0, 9);
    let parts = seq![
        nat_bits(0x76, 8),
        nat_bits(0x70, 8),
        nat_bits(0x6b, 8),
        nat_bits(0x30, 8),
    ];
    assert forall|k: int| 0 <= k < 4 implies #[trigger] bytes[k] == magic()[k] by {
        lemma_stream_byte(bytes, k);
        assert(all.subrange(8 * k, 8 * k + 8) =~= hb.subrange(8 * k, 8 * k + 8)) by {
            assert forall|j: int| 0 <= j < 8 implies #[trigger] all[8 * k + j] == hb[8 * k + j] by {
                assert(all.subrange(0, 72)[8 * k + j] == hb[8 * k + j]);
            }
        }
        assert(hb.subrange(8 * k, 8 * k + 8) =~= nat_bits(magic()[k] as nat, 8));
        lemma_nat_bits_injective(bytes[k] as nat, magic()[k] as nat, 8);
    }
    assert(arr.subrange(0, 4) =~= magic());
    // the method byte
    lemma_stream_byte(bytes, 8);
    assert(all.subrange(64, 72) =~= hb.subrange(64, 72)) by {
        assert forall|j: int| 0 <= j < 8 implies #[trigger] all[64 + j] == hb[64 + j] by {
            assert(all.subrange(0, 72)[64 + j] == hb[64 + j]);
        }
    }
    assert(hb.subrange(64, 72) =~= nat_bits(h.method.spec_byte() as nat, 8));
    lemma_nat_bits_injective(bytes[8] as nat, h.method.spec_byte() as nat, 8);
    // the size
    let sb = hb.subrange(32, 64);
    assert(sb =~= nat_bits(h.size as nat, 32));
    assert(all.subrange(32, 64) =~= sb) by {
        assert forall|j: int| 0 <= j < 32 implies #[trigger] all[32 + j] == hb[32 + j] by {
            assert(all.subrange(0, 72)[32 + j] == hb[32 + j]);
        }
    }
    lemma_stream_byte(bytes, 4);
    lemma_stream_byte(bytes, 5);
    lemma_stream_byte(bytes, 6);
    lemma_stream_byte(bytes, 7);
    let b4 = nat_bits(bytes[4] as nat, 8);
    let b5 = nat_bits(bytes[5] as nat, 8);
    let b6 = nat_bits(bytes[6] as nat, 8);
    let b7 = nat_bits(bytes[7] as nat, 8);
    assert(all.subrange(32, 64) =~= b4 + b5 + b6 + b7);
    lemma_bits_value_concat(b4, b5);
    lemma_bits_value_concat(b4 + b5, b6);
    lemma_bits_value_concat(b4 + b5 + b6, b7);
    lemma_bits_value_of(bytes[4] as nat, 8);
    lemma_bits_value_of(bytes[5] as nat, 8);
    lemma_bits_value_of(bytes[6] as nat, 8);
    lemma_bits_value_of(bytes[7] as nat, 8);
    lemma_bits_value_of(h.size as nat, 32);
    assert(arr.subrange(4, 8) =~= bytes.subrange(4, 8));
}

} // verus!
