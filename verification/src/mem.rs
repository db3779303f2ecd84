//! Guest memory: a bounds-checked window of the 32-bit guest address space.
//!
//! Every address handed to this module is a 32-bit guest address, never a
//! native pointer. Multi-byte values are little-endian.

use vstd::prelude::*;

verus! {

/// Byte `i` of `v` in little-endian order; byte 0 is the least significant.
pub open spec fn le_byte(v: u32, i: int) -> u8 {
    if i == 0 {
        (v % 0x100) as u8
    } else if i == 1 {
        (v / 0x100 % 0x100) as u8
    } else if i == 2 {
        (v / 0x1_0000 % 0x100) as u8
    } else {
        (v / 0x100_0000 % 0x100) as u8
    }
}

/// The 32-bit value whose little-endian bytes are `b0`, `b1`, `b2`, `b3`.
pub open spec fn le_word(b0: u8, b1: u8, b2: u8, b3: u8) -> u32 {
    (b0 + b1 * 0x100 + b2 * 0x1_0000 + b3 * 0x100_0000) as u32
}

/// Splitting a word into little-endian bytes and joining them again gives the word back.
pub proof fn lemma_le_round_trip(v: u32)
    ensures
        le_word(le_byte(v, 0), le_byte(v, 1), le_byte(v, 2), le_byte(v, 3)) == v,
{
}

/// A window `[base, limit)` of guest memory.
pub struct Mem {
    base: u32,
    bytes: Vec<u8>,
}

impl Mem {
    /// First guest address of the window.
    pub closed spec fn base(&self) -> nat {
        self.base as nat
    }

    /// One past the last guest address of the window.
    pub closed spec fn limit(&self) -> nat {
        self.base as nat + self.bytes@.len()
    }

    /// The byte stored at guest address `a`; zero outside the window.
    pub closed spec fn byte(&self, a: int) -> u8 {
        if self.base <= a < self.base + self.bytes@.len() {
            self.bytes@[a - self.base]
        } else {
            0u8
        }
    }

    /// The window lies within the 32-bit address space.
    pub open spec fn wf(&self) -> bool {
        self.limit() <= 0x1_0000_0000
    }

    /// The `n` bytes starting at `a` all lie inside the window.
    pub open spec fn contains(&self, a: int, n: int) -> bool {
        n >= 0 && self.base() <= a && a + n <= self.limit()
    }

    /// The little-endian 32-bit value stored at `a`.
    #[verifier::opaque]
    pub open spec fn word(&self, a: int) -> u32 {
        le_word(self.byte(a), self.byte(a + 1), self.byte(a + 2), self.byte(a + 3))
    }

    /// The `n` bytes stored from `a` on.
    pub open spec fn span(&self, a: int, n: int) -> Seq<u8> {
        Seq::new(n as nat, |i: int| self.byte(a + i))
    }

    /// A zero byte lies at `a` or behind it, inside the window.
    pub open spec fn terminated(&self, a: int) -> bool
        decreases
            (if a < self.limit() {
                self.limit() - a
            } else {
                0
            }),
    {
        self.contains(a, 1) && (self.byte(a) == 0 || self.terminated(a + 1))
    }

    /// The bytes from `a` up to the first zero byte.
    pub open spec fn cstr(&self, a: int) -> Seq<u8>
        decreases
            (if a < self.limit() {
                self.limit() - a
            } else {
                0
            }),
    {
        if !self.contains(a, 1) || self.byte(a) == 0 {
            Seq::empty()
        } else {
            seq![self.byte(a)] + self.cstr(a + 1)
        }
    }

    /// `self` and `other` are the same window and differ at most inside `[lo, hi)`.
    pub open spec fn same_outside(&self, other: Mem, lo: int, hi: int) -> bool {
        &&& self.base() == other.base()
        &&& self.limit() == other.limit()
        &&& forall|a: int| !(lo <= a < hi) ==> #[trigger] self.byte(a) == other.byte(a)
    }

    /// Words read the same where the bytes under them are the same.
    pub proof fn lemma_same_word(&self, other: Mem, a: int)
        requires
            forall|x: int| a <= x < a + 4 ==> #[trigger] self.byte(x) == other.byte(x),
        ensures
            self.word(a) == other.word(a),
    {
        reveal(Mem::word);
        assert(self.byte(a) == other.byte(a));
        assert(self.byte(a + 1) == other.byte(a + 1));
        assert(self.byte(a + 2) == other.byte(a + 2));
        assert(self.byte(a + 3) == other.byte(a + 3));
    }

    /// Words that lie outside the range in which two windows differ read the
    /// same in both.
    pub proof fn lemma_words_outside(&self, other: Mem, lo: int, hi: int)
        requires
            self.same_outside(other, lo, hi),
        ensures
            forall|p: int| p + 4 <= lo || hi <= p ==> #[trigger] self.word(p) == other.word(p),
    {
        assert forall|p: int| p + 4 <= lo || hi <= p implies #[trigger] self.word(p) == other.word(
            p,
        ) by {
            self.lemma_same_word(other, p);
        }
    }

    /// A zero-filled window of `len` bytes starting at `base`.
    pub fn new(base: u32, len: u32) -> (mem: Mem)
        requires
            base + len <= 0x1_0000_0000,
        ensures
            mem.wf(),
            mem.base() == base,
            mem.limit() == base + len,
            forall|a: int| #[trigger] mem.byte(a) == 0,
    {
        Mem { base, bytes: vec![0u8; len as usize] }
    }

    /// The window starting at `base` whose content is `bytes`.
    pub fn from_bytes(base: u32, bytes: Vec<u8>) -> (mem: Mem)
        requires
            base + bytes@.len() <= 0x1_0000_0000,
        ensures
            mem.wf(),
            mem.base() == base,
            mem.limit() == base + bytes@.len(),
            mem.span(base as int, bytes@.len() as int) == bytes@,
    {
        let mem = Mem { base, bytes };
        assert(mem.span(base as int, mem.bytes@.len() as int) =~= mem.bytes@);
        mem
    }

    /// Gives the content of the window back.
    pub fn into_bytes(self) -> (bytes: Vec<u8>)
        ensures
            bytes@ == self.span(self.base() as int, self.limit() - self.base()),
    {
        assert(self.span(self.base() as int, self.limit() - self.base()) =~= self.bytes@);
        self.bytes
    }

    /// First guest address of the window.
    pub fn start(&self) -> (a: u32)
        ensures
            a == self.base(),
    {
        self.base
    }

    /// Number of bytes in the window.
    pub fn len(&self) -> (n: usize)
        ensures
            n == self.limit() - self.base(),
    {
        self.bytes.len()
    }

    /// Whether the window lies within the 32-bit address space.
    pub fn in_range(&self) -> (ok: bool)
        ensures
            ok == self.wf(),
    {
        self.bytes.len() as u64 <= 0x1_0000_0000u64 - self.base as u64
    }

    /// One past the last guest address of the window.
    pub fn end(&self) -> (e: u64)
        requires
            self.wf(),
        ensures
            e == self.limit(),
    {
        self.base as u64 + self.bytes.len() as u64
    }

    /// Whether the `n` bytes starting at `addr` lie inside the window.
    pub fn holds(&self, addr: u32, n: u32) -> (inside: bool)
        ensures
            inside == self.contains(addr as int, n as int),
    {
        addr >= self.base && (addr - self.base) as u64 + n as u64 <= self.bytes.len() as u64
    }

    /// Reads the byte at `addr`.
    pub fn get_u8(&self, addr: u32) -> (v: u8)
        requires
            self.contains(addr as int, 1),
        ensures
            v == self.byte(addr as int),
    {
        self.bytes[(addr - self.base) as usize]
    }

    /// Stores `v` at `addr`.
    pub fn put_u8(&mut self, addr: u32, v: u8)
        requires
            old(self).contains(addr as int, 1),
        ensures
            final(self).same_outside(*old(self), addr as int, addr + 1),
            final(self).byte(addr as int) == v,
    {
        let i: usize = (addr - self.base) as usize;
        self.bytes.set(i, v);
    }

    /// Reads the little-endian 32-bit value at `addr`.
    pub fn get_u32(&self, addr: u32) -> (v: u32)
        requires
            self.contains(addr as int, 4),
        ensures
            v == self.word(addr as int),
    {
        let total: usize = self.bytes.len();
        let i: usize = (addr - self.base) as usize;
        let b0: u32 = self.bytes[i] as u32;
        let b1: u32 = self.bytes[i + 1] as u32;
        let b2: u32 = self.bytes[i + 2] as u32;
        let b3: u32 = self.bytes[i + 3] as u32;
        proof {
            reveal(Mem::word);
        }
        b0 + b1 * 0x100 + b2 * 0x1_0000 + b3 * 0x100_0000
    }

    /// Stores `v` at `addr` as four little-endian bytes.
    pub fn put_u32(&mut self, addr: u32, v: u32)
        requires
            old(self).contains(addr as int, 4),
        ensures
            final(self).same_outside(*old(self), addr as int, addr + 4),
            final(self).word(addr as int) == v,
            forall|i: int| 0 <= i < 4 ==> final(self).byte(addr + i) == le_byte(v, i),
    {
        let total: usize = self.bytes.len();
        let i: usize = (addr - self.base) as usize;
        self.bytes.set(i, (v % 0x100) as u8);
        self.bytes.set(i + 1, (v / 0x100 % 0x100) as u8);
        self.bytes.set(i + 2, (v / 0x1_0000 % 0x100) as u8);
        self.bytes.set(i + 3, (v / 0x100_0000 % 0x100) as u8);
        proof {
            reveal(Mem::word);
            lemma_le_round_trip(v);
        }
    }

    /// Copies `buf` into the window at `addr`.
    pub fn write(&mut self, addr: u32, buf: &[u8])
        requires
            old(self).contains(addr as int, buf@.len() as int),
        ensures
            final(self).same_outside(*old(self), addr as int, addr + buf@.len()),
            final(self).span(addr as int, buf@.len() as int) == buf@,
    {
        let total: usize = self.bytes.len();
        let start: usize = (addr - self.base) as usize;
        let n: usize = buf.len();
        let mut k: usize = 0;
        while k < n
            invariant
                k <= n,
                start + n <= total,
                n == buf@.len(),
                start == addr - self.base(),
                self.base() == old(self).base(),
                self.limit() == old(self).limit(),
                self.bytes@.len() == total,
                forall|i: int|
                    0 <= i < total && !(start <= i < start + k) ==> #[trigger] self.bytes@[i] == old(
                        self,
                    ).bytes@[i],
                forall|j: int| 0 <= j < k ==> #[trigger] self.bytes@[start + j] == buf@[j],
            decreases n - k,
        {
            self.bytes.set(start + k, buf[k]);
            k = k + 1;
        }
        assert forall|j: int| 0 <= j < n implies #[trigger] self.byte(addr + j) == buf@[j] by {
            assert(self.bytes@[start + j] == buf@[j]);
        }
        assert(self.span(addr as int, n as int) =~= buf@);
    }

    /// Copies the `n` bytes starting at `addr` out of the window.
    pub fn read(&self, addr: u32, n: u32) -> (out: Vec<u8>)
        requires
            self.contains(addr as int, n as int),
        ensures
            out@ == self.span(addr as int, n as int),
    {
        let total: usize = self.bytes.len();
        let start: usize = (addr - self.base) as usize;
        let mut out: Vec<u8> = Vec::new();
        let mut k: usize = 0;
        while k < n as usize
            invariant
                k <= n,
                start + n <= total,
                start == addr - self.base(),
                self.contains(addr as int, n as int),
                out@.len() == k,
                forall|j: int| 0 <= j < k ==> #[trigger] out@[j] == self.byte(addr + j),
            decreases n - k,
        {
            out.push(self.bytes[start + k]);
            k = k + 1;
        }
        assert(out@ =~= self.span(addr as int, n as int));
        out
    }

    /// The bytes from `addr` up to the first zero byte; none where the window
    /// ends before a zero byte is found.
    pub fn slicez(&self, addr: u32) -> (bytes: Option<Vec<u8>>)
        requires
            self.wf(),
        ensures
            bytes is Some <==> self.terminated(addr as int),
            bytes is Some ==> bytes.unwrap()@ == self.cstr(addr as int),
    {
        let end: u64 = self.end();
        let mut out: Vec<u8> = Vec::new();
        let mut i: u64 = addr as u64;
        if addr < self.base {
            return None;
        }
        while i < end
            invariant
                self.wf(),
                end == self.limit(),
                self.base() <= addr <= i,
                self.terminated(addr as int) <==> self.terminated(i as int),
                self.cstr(addr as int) == out@ + self.cstr(i as int),
            decreases end - i,
        {
            let b: u8 = self.get_u8(i as u32);
            if b == 0 {
                assert(out@ + Seq::<u8>::empty() =~= out@);
                return Some(out);
            }
            let ghost before = out@;
            out.push(b);
            assert(before + (seq![b] + self.cstr(i + 1)) =~= out@ + self.cstr(i + 1));
            i = i + 1;
        }
        None
    }
}

} // verus!
