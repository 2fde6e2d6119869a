//! Memory that a remote peer reads and writes by byte offset.
//!
//! The table and the message buffer are laid out in such memory byte by byte, because a peer
//! addresses them that way. `Vec<u8>`, `&mut [u8]` and `Lines` are regions of ordinary memory, of
//! which `Lines` is aligned to cache lines; a program that registers memory with a NIC supplies a
//! region of its own whose accesses are volatile and whose fences are real.

use crossbeam_utils::CachePadded;
use vstd::prelude::*;

verus! {

/// `crossbeam_utils::CachePadded` only lends its alignment; nothing is claimed of it.
#[verifier::external_type_specification]
#[verifier::external_body]
#[verifier::reject_recursive_types(T)]
pub struct ExCachePadded<T>(CachePadded<T>);

/// `bytes` with the bytes from `at` on replaced by `block`.
pub open spec fn splice(bytes: Seq<u8>, at: int, block: Seq<u8>) -> Seq<u8> {
    Seq::new(
        bytes.len(),
        |i: int|
            if at <= i < at + block.len() {
                block[i - at]
            } else {
                bytes[i]
            },
    )
}

/// The little-endian value of the four bytes from `at` on.
pub open spec fn le32(bytes: Seq<u8>, at: int) -> u32 {
    (bytes[at] + 0x100 * bytes[at + 1] + 0x1_0000 * bytes[at + 2] + 0x100_0000 * bytes[at
        + 3]) as u32
}

/// The four bytes of `value`, lowest first.
pub open spec fn le32_bytes(value: u32) -> Seq<u8> {
    seq![
        (value % 0x100) as u8,
        (value / 0x100 % 0x100) as u8,
        (value / 0x1_0000 % 0x100) as u8,
        (value / 0x100_0000) as u8,
    ]
}

/// The four bytes of `word`, lowest first.
fn word_bytes(word: u32) -> (bytes: [u8; 4])
    ensures
        bytes@ == le32_bytes(word),
{
    let bytes = [
        (word % 0x100) as u8,
        (word / 0x100 % 0x100) as u8,
        (word / 0x1_0000 % 0x100) as u8,
        (word / 0x100_0000) as u8,
    ];
    assert(bytes@ =~= le32_bytes(word));
    bytes
}

/// A word reads back as it was written.
pub proof fn lemma_le32_round_trip(bytes: Seq<u8>, at: int, value: u32)
    requires
        0 <= at,
        at + 4 <= bytes.len(),
    ensures
        le32(splice(bytes, at, le32_bytes(value)), at) == value,
{
    let s = splice(bytes, at, le32_bytes(value));
    assert(s[at] == le32_bytes(value)[0]);
    assert(s[at + 1] == le32_bytes(value)[1]);
    assert(s[at + 2] == le32_bytes(value)[2]);
    assert(s[at + 3] == le32_bytes(value)[3]);
}

/// A splice puts the block in its place, byte for byte, and leaves all other bytes as they are.
pub proof fn law_splice_replaces_one_block(bytes: Seq<u8>, at: int, block: Seq<u8>)
    requires
        0 <= at,
        at + block.len() <= bytes.len(),
    ensures
        splice(bytes, at, block) == bytes.take(at) + block + bytes.skip(at + block.len()),
{
    assert(splice(bytes, at, block) =~= bytes.take(at) + block + bytes.skip(at + block.len()));
}

/// The bytes of a word are its digits to the base 256, the lowest first.
pub proof fn law_lowest_byte_first(value: u32)
    ensures
        ({
            let bytes = le32_bytes(value);
            let rest = le32_bytes(value / 256);
            &&& bytes.len() == 4
            &&& bytes[0] == value % 256
            &&& bytes[1] == rest[0]
            &&& bytes[2] == rest[1]
            &&& bytes[3] == rest[2]
            &&& rest[3] == 0
        }),
{
    vstd::arithmetic::div_mod::lemma_div_denominator(value as int, 0x100, 0x100);
    vstd::arithmetic::div_mod::lemma_div_denominator(value as int, 0x100, 0x1_0000);
    vstd::arithmetic::div_mod::lemma_div_denominator(value as int, 0x100, 0x100_0000);
    assert((value as int / 0x100_0000) % 0x100 == value as int / 0x100_0000);
}

/// Any four bytes are those of the word that they read as, and of no other.
pub proof fn law_word_and_bytes_agree(bytes: Seq<u8>, at: int, value: u32)
    requires
        0 <= at,
        at + 4 <= bytes.len(),
    ensures
        le32(bytes, at) == value <==> bytes.subrange(at, at + 4) == le32_bytes(value),
{
    let four = bytes.subrange(at, at + 4);
    let x = le32(bytes, at) as int;
    let y = bytes[at + 1] + 0x100 * bytes[at + 2] + 0x1_0000 * bytes[at + 3];
    let z = bytes[at + 2] + 0x100 * bytes[at + 3];
    vstd::arithmetic::div_mod::lemma_div_denominator(x, 0x100, 0x100);
    vstd::arithmetic::div_mod::lemma_div_denominator(x, 0x1_0000, 0x100);
    assert(x == bytes[at] + 0x100 * y && x / 0x100 == y);
    assert(y == bytes[at + 1] + 0x100 * z && y / 0x100 == z);
    assert(z / 0x100 == bytes[at + 3]);
    assert(four =~= le32_bytes(x as u32));
    if four == le32_bytes(value) {
        lemma_le32_round_trip(bytes, at, value);
        assert(splice(bytes, at, four) =~= bytes);
    }
}

/// A block of memory, addressed by byte offset.
///
/// Others may look at the memory at any time, so that it matters how it gets from one state to the
/// next. A region says by `allowed` which steps its users may take; whoever stores owes that each
/// single store is such a step. Ordinary memory allows every step.
///
/// Every region of this crate says what its spec functions mean for it; nothing is said of a region
/// that a program supplies without doing so.
pub trait Region {
    /// What the memory holds.
    closed spec fn bytes(&self) -> Seq<u8> {
        vstd::pervasive::arbitrary()
    }

    /// The address that peers know the memory by.
    closed spec fn addr(&self) -> u64 {
        vstd::pervasive::arbitrary()
    }

    /// Whether one store may take the memory from `from` to `to`, where `fenced` says that all
    /// stores before it are ordered before it.
    closed spec fn allowed(&self, from: Seq<u8>, to: Seq<u8>, fenced: bool) -> bool {
        vstd::pervasive::arbitrary()
    }

    /// Whether all stores so far are ordered before the next one.
    closed spec fn fenced(&self) -> bool {
        vstd::pervasive::arbitrary()
    }

    /// The number of bytes.
    fn size(&self) -> (n: usize)
        ensures
            n == self.bytes().len(),
    ;

    /// The address that peers know the memory by: zero for ordinary memory, which peers do not
    /// reach.
    fn address(&self) -> (addr: u64)
        ensures
            addr == self.addr(),
    ;

    /// Reads one byte.
    fn load(&self, at: usize) -> (byte: u8)
        requires
            at < self.bytes().len(),
        ensures
            byte == self.bytes()[at as int],
    ;

    /// Writes one byte.
    fn store(&mut self, at: usize, byte: u8)
        requires
            at < old(self).bytes().len(),
            old(self).allowed(
                old(self).bytes(),
                old(self).bytes().update(at as int, byte),
                old(self).fenced(),
            ),
        ensures
            final(self).bytes() == old(self).bytes().update(at as int, byte),
            final(self).addr() == old(self).addr(),
            forall|from: Seq<u8>, to: Seq<u8>, fenced: bool| #[trigger]
                final(self).allowed(from, to, fenced) == old(self).allowed(from, to, fenced),
    ;

    /// Reads a little-endian word.
    fn load_u32(&self, at: usize) -> (word: u32)
        requires
            at + 4 <= self.bytes().len(),
        ensures
            word == le32(self.bytes(), at as int),
    {
        let _size: usize = self.size();
        let b0 = self.load(at) as u32;
        let b1 = self.load(at + 1) as u32;
        let b2 = self.load(at + 2) as u32;
        let b3 = self.load(at + 3) as u32;
        b0 + 0x100 * b1 + 0x1_0000 * b2 + 0x100_0000 * b3
    }

    /// Writes a little-endian word, in one step.
    fn store_u32(&mut self, at: usize, word: u32)
        requires
            at + 4 <= old(self).bytes().len(),
            old(self).allowed(
                old(self).bytes(),
                splice(old(self).bytes(), at as int, le32_bytes(word)),
                old(self).fenced(),
            ),
        ensures
            final(self).bytes() == splice(old(self).bytes(), at as int, le32_bytes(word)),
            final(self).addr() == old(self).addr(),
            forall|from: Seq<u8>, to: Seq<u8>, fenced: bool| #[trigger]
                final(self).allowed(from, to, fenced) == old(self).allowed(from, to, fenced),
    ;

    /// Orders the loads before this call before those after it.
    fn acquire(&self) {
    }

    /// Orders the stores before this call before those after it.
    fn release(&mut self)
        ensures
            final(self).fenced(),
            final(self).bytes() == old(self).bytes(),
            final(self).addr() == old(self).addr(),
            forall|from: Seq<u8>, to: Seq<u8>, fenced: bool| #[trigger]
                final(self).allowed(from, to, fenced) == old(self).allowed(from, to, fenced),
    ;

    /// Waits a moment between two attempts at a read.
    fn pause(&self) {
    }
}

/// Two states of one region: the address and the steps that it allows are the same.
pub open spec fn same_rules<R: Region>(a: &R, b: &R) -> bool {
    &&& a.addr() == b.addr()
    &&& forall|from: Seq<u8>, to: Seq<u8>, fenced: bool| #[trigger]
        a.allowed(from, to, fenced) == b.allowed(from, to, fenced)
}

impl Region for Vec<u8> {
    open spec fn bytes(&self) -> Seq<u8> {
        self@
    }

    open spec fn addr(&self) -> u64 {
        0
    }

    open spec fn allowed(&self, from: Seq<u8>, to: Seq<u8>, fenced: bool) -> bool {
        true
    }

    open spec fn fenced(&self) -> bool {
        true
    }

    fn size(&self) -> (n: usize) {
        self.len()
    }

    fn address(&self) -> (addr: u64) {
        0
    }

    fn load(&self, at: usize) -> (byte: u8) {
        self[at]
    }

    fn store(&mut self, at: usize, byte: u8) {
        self[at] = byte;
    }

    fn store_u32(&mut self, at: usize, word: u32) {
        let _size: usize = self.len();
        let bytes = word_bytes(word);
        self[at] = bytes[0];
        self[at + 1] = bytes[1];
        self[at + 2] = bytes[2];
        self[at + 3] = bytes[3];
        assert(self@ =~= splice(old(self)@, at as int, le32_bytes(word)));
    }

    fn release(&mut self) {
    }
}

impl<'a> Region for &'a mut [u8] {
    open spec fn bytes(&self) -> Seq<u8> {
        (**self)@
    }

    open spec fn addr(&self) -> u64 {
        0
    }

    open spec fn allowed(&self, from: Seq<u8>, to: Seq<u8>, fenced: bool) -> bool {
        true
    }

    open spec fn fenced(&self) -> bool {
        true
    }

    fn size(&self) -> (n: usize) {
        self.len()
    }

    fn address(&self) -> (addr: u64) {
        0
    }

    fn load(&self, at: usize) -> (byte: u8) {
        self[at]
    }

    fn store(&mut self, at: usize, byte: u8) {
        self[at] = byte;
    }

    fn store_u32(&mut self, at: usize, word: u32) {
        let _size: usize = self.len();
        let bytes = word_bytes(word);
        self[at] = bytes[0];
        self[at + 1] = bytes[1];
        self[at + 2] = bytes[2];
        self[at + 3] = bytes[3];
        assert(self.bytes() =~= splice(old(self).bytes(), at as int, le32_bytes(word)));
    }

    fn release(&mut self) {
    }
}

/// A pair of cache lines, aligned as such.
#[derive(Clone, Copy)]
pub struct Line {
    pub bytes: [u8; 128],
    pub _line: [CachePadded<u8>; 0],
}

/// Ordinary memory in one piece, aligned to pairs of cache lines.
pub struct Lines {
    lines: Vec<Line>,
}

impl Lines {
    #[verifier::type_invariant]
    spec fn addressable(self) -> bool {
        128 * self.lines@.len() <= usize::MAX
    }

    /// `n` pairs of cache lines, all bytes zero.
    pub fn zeroed(n: usize) -> (mem: Self)
        requires
            128 * n <= isize::MAX,
        ensures
            mem.bytes() == Seq::new((128 * n) as nat, |i: int| 0u8),
    {
        let mut lines: Vec<Line> = Vec::new();
        let mut i: usize = 0;
        while i < n
            invariant
                i <= n,
                lines@.len() == i,
                forall|j: int, k: int|
                    0 <= j < i && 0 <= k < 128 ==> (#[trigger] lines@[j].bytes@[k]) == 0,
            decreases n - i,
        {
            lines.push(Line { bytes: [0u8; 128], _line: [] });
            i += 1;
        }
        let mem = Lines { lines };
        assert(mem.bytes() =~= Seq::new((128 * n) as nat, |i: int| 0u8));
        mem
    }

    /// A copy of what the memory holds.
    pub fn to_vec(&self) -> (copy: Vec<u8>)
        ensures
            copy@ == self.bytes(),
    {
        let size: usize = self.size();
        let mut copy: Vec<u8> = Vec::new();
        let mut i: usize = 0;
        while i < size
            invariant
                i <= size == self.bytes().len(),
                copy@ == self.bytes().take(i as int),
            decreases size - i,
        {
            copy.push(self.load(i));
            assert(copy@ =~= self.bytes().take(i + 1));
            i += 1;
        }
        assert(self.bytes().take(size as int) =~= self.bytes());
        copy
    }
}

impl Region for Lines {
    closed spec fn bytes(&self) -> Seq<u8> {
        Seq::new(128 * self.lines@.len(), |i: int| self.lines@[i / 128].bytes@[i % 128])
    }

    open spec fn addr(&self) -> u64 {
        0
    }

    open spec fn allowed(&self, from: Seq<u8>, to: Seq<u8>, fenced: bool) -> bool {
        true
    }

    open spec fn fenced(&self) -> bool {
        true
    }

    fn size(&self) -> (n: usize) {
        proof {
            use_type_invariant(self);
        }
        128 * self.lines.len()
    }

    fn address(&self) -> (addr: u64) {
        0
    }

    fn load(&self, at: usize) -> (byte: u8) {
        self.lines[at / 128].bytes[at % 128]
    }

    fn store(&mut self, at: usize, byte: u8) {
        proof {
            use_type_invariant(&*self);
        }
        let mut lines: Vec<Line> = Vec::new();
        std::mem::swap(&mut lines, &mut self.lines);
        let mut line = lines[at / 128];
        line.bytes[at % 128] = byte;
        lines[at / 128] = line;
        self.lines = lines;
        assert(self.bytes() =~= old(self).bytes().update(at as int, byte));
    }

    fn store_u32(&mut self, at: usize, word: u32) {
        let _size: usize = self.size();
        let bytes = word_bytes(word);
        self.store(at, bytes[0]);
        self.store(at + 1, bytes[1]);
        self.store(at + 2, bytes[2]);
        self.store(at + 3, bytes[3]);
        assert(self.bytes() =~= splice(old(self).bytes(), at as int, le32_bytes(word)));
    }

    fn release(&mut self) {
    }
}

/// Reads 24 bytes.
pub fn load_block<R: Region>(region: &R, at: usize) -> (block: [u8; 24])
    requires
        at + 24 <= region.bytes().len(),
    ensures
        block@ == region.bytes().subrange(at as int, at + 24),
{
    let size: usize = region.size();
    let mut block = [0u8; 24];
    let mut i: usize = 0;
    while i < 24
        invariant
            i <= 24,
            at + 24 <= region.bytes().len() == size,
            forall|j: int| 0 <= j < i ==> block@[j] == region.bytes()[at + j],
        decreases 24 - i,
    {
        block[i] = region.load(at + i);
        i += 1;
    }
    assert(block@ =~= region.bytes().subrange(at as int, at + 24));
    block
}

/// Memory once the first `k` bytes of `block` are copied to `at`.
pub open spec fn partly(bytes: Seq<u8>, at: int, block: Seq<u8>, k: int) -> Seq<u8> {
    splice(bytes, at, block.take(k))
}

/// Whether a region allows that, of `block` on its way to `at`, the byte of number `k` is copied
/// after those before it.
pub open spec fn may_copy<R: Region>(
    mem: &R,
    bytes: Seq<u8>,
    at: int,
    block: Seq<u8>,
    k: int,
    fenced: bool,
) -> bool {
    mem.allowed(partly(bytes, at, block, k), partly(bytes, at, block, k + 1), fenced)
}

/// Writes a key and then a value, byte by byte, in order.
pub fn store_pair<R: Region>(region: &mut R, at: usize, key: &[u8; 24], value: &[u8; 24])
    requires
        at + 48 <= old(region).bytes().len(),
        forall|k: int, fenced: bool|
            0 <= k < 48 && (k > 0 || fenced == old(region).fenced()) ==> #[trigger] may_copy(
                old(region),
                old(region).bytes(),
                at as int,
                key@ + value@,
                k,
                fenced,
            ),
    ensures
        final(region).bytes() == splice(old(region).bytes(), at as int, key@ + value@),
        same_rules(final(region), old(region)),
{
    let size: usize = region.size();
    let ghost before = region.bytes();
    let ghost block = key@ + value@;
    let mut k: usize = 0;
    assert(partly(before, at as int, block, 0) =~= before);
    while k < 48
        invariant
            k <= 48,
            at + 48 <= before.len() == size,
            before == old(region).bytes(),
            block == key@ + value@,
            region.bytes() == partly(before, at as int, block, k as int),
            k == 0 ==> region.fenced() == old(region).fenced(),
            same_rules(region, old(region)),
            forall|j: int, fenced: bool|
                0 <= j < 48 && (j > 0 || fenced == old(region).fenced()) ==> #[trigger] may_copy(
                    old(region),
                    before,
                    at as int,
                    block,
                    j,
                    fenced,
                ),
        decreases 48 - k,
    {
        let byte: u8 = if k < 24 {
            key[k]
        } else {
            value[k - 24]
        };
        assert(byte == block[k as int]);
        assert(region.bytes().update(at + k, byte) =~= partly(before, at as int, block, k + 1));
        assert(may_copy(old(region), before, at as int, block, k as int, region.fenced()));
        region.store(at + k, byte);
        k += 1;
    }
    assert(block.take(48) =~= block);
}

/// Whether two blocks hold the same bytes.
pub fn same_block(a: &[u8; 24], b: &[u8; 24]) -> (same: bool)
    ensures
        same == (a@ == b@),
{
    let mut i: usize = 0;
    while i < 24
        invariant
            i <= 24,
            forall|j: int| 0 <= j < i ==> a@[j] == b@[j],
        decreases 24 - i,
    {
        if a[i] != b[i] {
            assert(a@[i as int] != b@[i as int]);
            return false;
        }
        i += 1;
    }
    assert(a@ =~= b@);
    true
}

/// A list of bytes, taken as memory, is these bytes, in their order.
pub proof fn law_a_list_is_its_bytes(list: Vec<u8>, i: int)
    requires
        0 <= i < list@.len(),
    ensures
        list.bytes().len() == list@.len(),
        list.bytes()[i] == list@[i],
{
}

} // verus!
