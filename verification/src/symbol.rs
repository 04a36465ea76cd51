//! Interned strings. A symbol is a single 64-bit value: short strings are
//! packed into the value itself, longer ones live in an explicit pool and
//! the value holds their index. Interning the same string twice yields
//! the same value; distinct strings yield distinct values.

use vstd::prelude::*;
use vstd::string::StringSliceAdditionalSpecFns;

verus! {

/// How a symbol's value encodes its string.
#[derive(Clone, Copy, Debug, PartialEq, Eq, Structural)]
pub enum Tag {
    /// The value indexes the symbol pool.
    Dynamic,
    /// The string is packed into the value itself.
    Inlined,
}

/// An interned string: a compact value that can be copied and compared
/// freely. Its text is recovered through the pool that interned it.
#[derive(Clone, Copy, Debug, PartialEq, Eq, Structural)]
pub struct Symbol(pub u64);

/// The pool of strings too long to inline, in interning order, each
/// longer than seven bytes and stored at most once.
#[derive(Debug)]
pub struct SymbolPool {
    pub strings: Vec<Vec<u8>>,
}

/// Maximum byte length of a string inlined into the symbol's value.
pub const MAX_INLINE_LEN: usize = 7;

/// The packed contribution of the first `k` bytes: byte `i` occupies the
/// bits of byte `i + 1` of the value.
pub open spec fn pack_upto(bytes: Seq<u8>, k: int) -> u64
    decreases k,
{
    if k <= 0 {
        0u64
    } else {
        pack_upto(bytes, k - 1) | ((bytes[k - 1] as u64) << ((8 * k) as u64))
    }
}

/// The packed value of a short string: the inline tag in the lowest bits,
/// the length in the second nibble, the bytes above.
pub open spec fn pack_spec(bytes: Seq<u8>) -> u64 {
    1u64 | (((bytes.len() as u64) << 4u64) | pack_upto(bytes, bytes.len() as int))
}

proof fn lemma_pack_upto_low(bytes: Seq<u8>, k: int)
    requires
        0 <= k <= 7,
    ensures
        pack_upto(bytes, k) & 0xFF == 0,
    decreases k,
{
    if k <= 0 {
        assert(0u64 & 0xFF == 0) by (bit_vector);
    }
    if k > 0 {
        lemma_pack_upto_low(bytes, k - 1);
        let prev = pack_upto(bytes, k - 1);
        let bi = bytes[k - 1] as u64;
        let sh: u64 = (8 * k) as u64;
        assert((prev | (bi << sh)) & 0xFF == 0) by (bit_vector)
            requires
                prev & 0xFF == 0,
                bi < 256,
                8 <= sh <= 56,
        ;
        assert(pack_upto(bytes, k) == prev | (bi << sh));
    }
}

/// The stored strings are all long, and no string is stored twice.
pub open spec fn pool_wf(p: SymbolPool) -> bool {
    &&& forall|i: int|
        0 <= i < p.strings@.len() ==> (#[trigger] p.strings@[i])@.len() > MAX_INLINE_LEN as int
    &&& forall|i: int, j: int|
        0 <= i < j < p.strings@.len() ==> (#[trigger] p.strings@[i])@ != (
        #[trigger] p.strings@[j])@
    &&& p.strings@.len() < 0x1000_0000_0000_0000
}

/// A symbol is meaningful for a pool: a dynamic value indexes a stored
/// string, an inlined value carries at most seven bytes.
pub open spec fn sym_wf(p: SymbolPool, s: Symbol) -> bool {
    if s.0 & 3 == 1 {
        (s.0 >> 4) & 0xF <= MAX_INLINE_LEN as u64
    } else {
        1 <= (s.0 >> 2) <= p.strings@.len()
    }
}

/// The bytes a symbol denotes, relative to its pool.
pub open spec fn sym_bytes(p: SymbolPool, s: Symbol) -> Seq<u8> {
    if s.0 & 3 == 1 {
        Seq::new(
            ((s.0 >> 4) & 0xF) as nat,
            |i: int| ((s.0 >> ((8 * (i + 1)) as u64)) & 0xFF) as u8,
        )
    } else {
        p.strings@[(s.0 >> 2) as int - 1]@
    }
}

impl Symbol {
    /// Whether the symbol inlines its string or points into the pool.
    pub fn tag(&self) -> (r: Tag)
        ensures
            r == (if self.0 & 3 == 1 {
                Tag::Inlined
            } else {
                Tag::Dynamic
            }),
    {
        if self.0 & 3 == 1 {
            Tag::Inlined
        } else {
            Tag::Dynamic
        }
    }

    /// The byte length of the symbol's string.
    pub fn len(&self, pool: &SymbolPool) -> (r: usize)
        requires
            sym_wf(*pool, *self),
        ensures
            r == sym_bytes(*pool, *self).len(),
    {
        if self.0 & 3 == 1 {
            proof {
                let v = self.0;
                assert((v >> 4) & 0xF <= 0xF) by (bit_vector);
                assert(sym_bytes(*pool, *self).len() == ((self.0 >> 4) & 0xF) as nat);
                assert(((self.0 >> 4) & 0xF) as usize as int == ((self.0 >> 4) & 0xF) as nat
                    as int);
            }
            ((self.0 >> 4) & 0xF) as usize
        } else {
            let nlen = pool.strings.len();
            proof {
                assert(1 <= (self.0 >> 2) <= nlen);
            }
            let idx = ((self.0 >> 2) - 1) as usize;
            pool.strings[idx].len()
        }
    }

    /// The bytes of the symbol's string.
    pub fn as_bytes(&self, pool: &SymbolPool) -> (r: Vec<u8>)
        requires
            sym_wf(*pool, *self),
        ensures
            r@ == sym_bytes(*pool, *self),
    {
        if self.0 & 3 == 1 {
            proof {
                let v = self.0;
                assert((v >> 4) & 0xF <= 0xF) by (bit_vector);
            }
            let n = ((self.0 >> 4) & 0xF) as usize;
            let mut out: Vec<u8> = Vec::new();
            let mut i: usize = 0;
            while i < n
                invariant
                    n == ((self.0 >> 4) & 0xF) as usize,
                    n <= 7,
                    0 <= i <= n,
                    out@.len() == i,
                    forall|j: int|
                        0 <= j < i ==> out@[j] == ((self.0 >> ((8 * (j + 1)) as u64))
                            & 0xFF) as u8,
                decreases n - i,
            {
                let shift: u64 = 8 * (i as u64 + 1);
                proof {
                    let v = self.0;
                    assert((v >> shift) & 0xFF < 256) by (bit_vector);
                }
                out.push(((self.0 >> shift) & 0xFF) as u8);
                i += 1;
            }
            proof {
                assert(out@ =~= sym_bytes(*pool, *self));
            }
            out
        } else {
            let nlen = pool.strings.len();
            let idx = ((self.0 >> 2) - 1) as usize;
            proof {
                let x: u64 = self.0 >> 2;
                assert(x >= 1);
                assert(x as int <= nlen as int);
                assert((x - 1) as int == x as int - 1);
                assert(idx as int == (x - 1) as int);
            }
            let src = &pool.strings[idx];
            let m = src.len();
            let mut out: Vec<u8> = Vec::new();
            let mut i: usize = 0;
            while i < m
                invariant
                    m == src@.len(),
                    0 <= i <= m,
                    out@ =~= src@.subrange(0, i as int),
                decreases m - i,
            {
                out.push(src[i]);
                i += 1;
            }
            proof {
                assert(out@ =~= src@);
                assert(src@ == sym_bytes(*pool, *self));
            }
            out
        }
    }
}

impl SymbolPool {
    /// An empty pool.
    pub fn new() -> (r: SymbolPool)
        ensures
            pool_wf(r),
            r.strings@.len() == 0,
    {
        SymbolPool { strings: Vec::new() }
    }

    /// Intern a string. A string of at most seven bytes is packed into the
    /// value; a longer one is stored in the pool — once — and the value
    /// holds its index. The value is a function of the string and of the
    /// long strings already interned, so equal strings always collide and
    /// the pool never stores a duplicate.
    pub fn intern(&mut self, s: &str) -> (r: Symbol)
        requires
            pool_wf(*old(self)),
            old(self).strings@.len() + 1 < 0x1000_0000_0000_0000,
        ensures
            pool_wf(*final(self)),
            sym_wf(*final(self), r),
            s.spec_bytes().len() <= MAX_INLINE_LEN as int ==> r.0 == pack_spec(s.spec_bytes())
                && *final(self) == *old(self),
            s.spec_bytes().len() > MAX_INLINE_LEN as int ==> r.0 & 3 == 0 && sym_bytes(
                *final(self),
                r,
            ) == s.spec_bytes(),
            final(self).strings@.len() == old(self).strings@.len() || final(self).strings@.len()
                == old(self).strings@.len() + 1,
            forall|i: int|
                0 <= i < old(self).strings@.len() ==> (#[trigger] final(self).strings@[i])@ == (
                old(self).strings@[i])@,
    {
        let b = s.as_bytes();
        let n = b.len();
        if n <= 7 {
            let mut data: u64 = 1u64 | ((n as u64) << 4u64);
            proof {
                let ln: u64 = n as u64;
                assert(1u64 | ((ln << 4u64) | 0u64) == 1u64 | (ln << 4u64)) by (bit_vector);
            }
            let mut i: usize = 0;
            while i < n
                invariant
                    n == b@.len(),
                    n <= 7,
                    0 <= i <= n,
                    data == 1u64 | (((n as u64) << 4u64) | pack_upto(b@, i as int)),
                decreases n - i,
            {
                let shift: u64 = 8 * (i as u64 + 1);
                let ghost pre = data;
                data = data | ((b[i] as u64) << shift);
                proof {
                    let bi = b@[i as int] as u64;
                    let lennib = (n as u64) << 4u64;
                    let prev = pack_upto(b@, i as int);
                    let sh: u64 = shift;
                    assert(data == 1u64 | (lennib | (prev | (bi << sh)))) by (bit_vector)
                        requires
                            pre == 1u64 | (lennib | prev),
                            data == pre | (bi << sh),
                    ;
                    assert(sh == (8 * (i as int + 1)) as u64);
                    assert(pack_upto(b@, i as int + 1) == prev | (bi << ((8 * (i as int + 1))
                        as u64)));
                }
                i += 1;
            }
            proof {
                assert(b@ == s.spec_bytes());
                lemma_pack_upto_low(b@, n as int);
                let pk = pack_upto(b@, n as int);
                let ln: u64 = n as u64;
                assert(data & 3 == 1 && (data >> 4) & 0xF == ln) by (bit_vector)
                    requires
                        data == 1u64 | ((ln << 4u64) | pk),
                        pk & 0xFF == 0,
                        ln <= 7,
                ;
                assert(sym_wf(*self, Symbol(data)));
            }
            Symbol(data)
        } else {
            let nstr = self.strings.len();
            let mut k: usize = 0;
            while k < nstr
                invariant
                    nstr == self.strings@.len(),
                    0 <= k <= nstr,
                    *self == *old(self),
                    pool_wf(*self),
                    n == b@.len(),
                    n > 7,
                    forall|j: int| 0 <= j < k ==> (#[trigger] self.strings@[j])@ != b@,
                    b@ == s.spec_bytes(),
                decreases nstr - k,
            {
                if bytes_eq(&self.strings[k], &b) {
                    let r = Symbol(((k as u64) + 1) << 2u64);
                    proof {
                        let kp: u64 = (k as u64 + 1) as u64;
                        assert(((kp << 2u64) & 3 == 0) && ((kp << 2u64) >> 2) == kp)
                            by (bit_vector)
                            requires
                                kp <= 0x1000_0000_0000_0000u64,
                        ;
                        assert(r.0 == kp << 2u64);
                        assert(sym_bytes(*self, r) == self.strings@[k as int]@);
                    }
                    return r;
                }
                k += 1;
            }
            let mut stored: Vec<u8> = Vec::new();
            let mut i: usize = 0;
            while i < n
                invariant
                    n == b@.len(),
                    0 <= i <= n,
                    stored@ =~= b@.subrange(0, i as int),
                decreases n - i,
            {
                stored.push(b[i]);
                i += 1;
            }
            proof {
                assert(stored@ =~= b@);
            }
            let idx = self.strings.len();
            self.strings.push(stored);
            let r = Symbol(((idx as u64) + 1) << 2u64);
            proof {
                let kp: u64 = (idx as u64 + 1) as u64;
                assert(((kp << 2u64) & 3 == 0) && ((kp << 2u64) >> 2) == kp) by (bit_vector)
                    requires
                        kp <= 0x1000_0000_0000_0000u64,
                ;
                assert(r.0 == kp << 2u64);
                assert(sym_bytes(*self, r) == self.strings@[idx as int]@);
                assert forall|i2: int, j2: int|
                    0 <= i2 < j2 < self.strings@.len() implies (#[trigger] self.strings@[i2])@
                    != (#[trigger] self.strings@[j2])@ by {
                    if j2 == idx as int {
                        assert(self.strings@[i2]@ != b@);
                    }
                }
            }
            r
        }
    }
}

/// Whether two byte strings are equal.
fn bytes_eq(a: &Vec<u8>, b: &[u8]) -> (r: bool)
    ensures
        r <==> a@ == b@,
{
    if a.len() != b.len() {
        return false;
    }
    let n = a.len();
    let mut i: usize = 0;
    while i < n
        invariant
            n == a@.len(),
            n == b@.len(),
            0 <= i <= n,
            forall|j: int| 0 <= j < i ==> a@[j] == b@[j],
        decreases n - i,
    {
        if a[i] != b[i] {
            return false;
        }
        i += 1;
    }
    proof {
        assert(a@ =~= b@);
    }
    true
}

} // verus!
