use vstd::prelude::*;

verus! {

/// The number that `s` encodes, least significant byte first.
pub open spec fn le_nat(s: Seq<u8>) -> nat
    decreases s.len(),
{
    if s.len() == 0 {
        0
    } else {
        s[0] as nat + 256 * le_nat(s.drop_first())
    }
}

/// `256` to the power `k`: one more than the largest number that `k` bytes can hold.
pub open spec fn pow256(k: nat) -> nat
    decreases k,
{
    if k == 0 {
        1
    } else {
        256 * pow256((k - 1) as nat)
    }
}

/// The two's complement reading of an unsigned number of `bits` bits.
pub open spec fn signed_of(v: nat, bits: nat) -> int {
    if v < pow256(bits / 8) / 2 {
        v as int
    } else {
        v - pow256(bits / 8)
    }
}

pub proof fn lemma_pow256_values()
    ensures
        pow256(1) == 0x100,
        pow256(2) == 0x1_0000,
        pow256(4) == 0x1_0000_0000,
        pow256(8) == 0x1_0000_0000_0000_0000,
{
    reveal_with_fuel(pow256, 9);
}

/// A forward-only cursor over an immutable byte slice.
pub struct Reader<'a> {
    pos: usize,
    bytes: &'a [u8],
}

impl<'a> Reader<'a> {
    #[verifier::type_invariant]
    closed spec fn inv(self) -> bool {
        self.pos <= self.bytes@.len()
    }

    /// How many bytes have been consumed.
    pub closed spec fn position(self) -> nat {
        self.pos as nat
    }

    /// The bytes being read.
    pub closed spec fn data(self) -> Seq<u8> {
        self.bytes@
    }

    /// A reader at the start of `bytes`.
    pub fn from(bytes: &'a [u8]) -> (r: Self)
        ensures
            r.position() == 0,
            r.data() == bytes@,
    {
        Reader { pos: 0, bytes }
    }

    /// How many bytes have been consumed, as an executable value.
    pub fn pos(&self) -> (r: usize)
        ensures
            r == self.position(),
    {
        self.pos
    }

    /// How many bytes are left to read.
    pub fn remaining(&self) -> (r: usize)
        ensures
            r == self.data().len() - self.position(),
    {
        proof {
            use_type_invariant(self);
        }
        self.bytes.len() - self.pos
    }

    /// The next `bytes` bytes, or `None` (and no move) when fewer remain.
    pub fn read_bytes(&mut self, bytes: usize) -> (r: Option<&'a [u8]>)
        ensures
            final(self).data() == old(self).data(),
            old(self).position() + bytes <= old(self).data().len() ==> {
                &&& r is Some
                &&& r.unwrap()@ == old(self).data().subrange(
                    old(self).position() as int,
                    old(self).position() + bytes,
                )
                &&& final(self).position() == old(self).position() + bytes
            },
            old(self).position() + bytes > old(self).data().len() ==> {
                &&& r is None
                &&& final(self).position() == old(self).position()
            },
    {
        proof {
            use_type_invariant(&*self);
        }
        if bytes <= self.bytes.len() - self.pos {
            let pos = self.pos;
            self.pos = pos + bytes;
            Some(vstd::slice::slice_subrange(self.bytes, pos, pos + bytes))
        } else {
            None
        }
    }

    /// The next `width` bytes read as one unsigned number, least significant first.
    fn read_uint(&mut self, width: usize) -> (r: Option<u64>)
        requires
            1 <= width <= 8,
        ensures
            final(self).data() == old(self).data(),
            old(self).position() + width <= old(self).data().len() ==> {
                &&& r == Some(
                    le_nat(
                        old(self).data().subrange(
                            old(self).position() as int,
                            old(self).position() + width,
                        ),
                    ) as u64,
                )
                &&& le_nat(
                    old(self).data().subrange(
                        old(self).position() as int,
                        old(self).position() + width,
                    ),
                ) < pow256(width as nat)
                &&& final(self).position() == old(self).position() + width
            },
            old(self).position() + width > old(self).data().len() ==> {
                &&& r is None
                &&& final(self).position() == old(self).position()
            },
    {
        let bytes = match self.read_bytes(width) {
            Some(b) => b,
            None => return None,
        };
        let ghost s = bytes@;
        let mut value: u64 = 0;
        let mut i: usize = width;
        proof {
            assert(s.subrange(width as int, width as int) =~= Seq::<u8>::empty());
            lemma_pow256_values();
        }
        while i > 0
            invariant
                i <= width <= 8,
                bytes@ == s,
                s.len() == width,
                value as nat == le_nat(s.subrange(i as int, width as int)),
                value < pow256((width - i) as nat),
                pow256(8) == 0x1_0000_0000_0000_0000,
            decreases i,
        {
            let ghost old_value = value;
            let b = bytes[i - 1];
            proof {
                let t = s.subrange(i - 1, width as int);
                assert(t.drop_first() =~= s.subrange(i as int, width as int));
                assert(t[0] == b);
                assert(pow256((width - i + 1) as nat) == 256 * pow256((width - i) as nat));
                lemma_pow256_monotone((width - i + 1) as nat, 8);
            }
            value = value * 256 + b as u64;
            i = i - 1;
        }
        proof {
            assert(s.subrange(0, width as int) =~= s);
        }
        Some(value)
    }

    /// The next byte.
    pub fn read_u8(&mut self) -> (r: Option<u8>)
        ensures
            final(self).data() == old(self).data(),
            old(self).position() + 1 <= old(self).data().len() ==> {
                &&& r == Some(old(self).data()[old(self).position() as int])
                &&& final(self).position() == old(self).position() + 1
            },
            old(self).position() + 1 > old(self).data().len() ==> {
                &&& r is None
                &&& final(self).position() == old(self).position()
            },
    {
        proof {
            use_type_invariant(&*self);
        }
        if self.pos < self.bytes.len() {
            let b = self.bytes[self.pos];
            self.pos = self.pos + 1;
            Some(b)
        } else {
            None
        }
    }

    /// The next two bytes, least significant first.
    pub fn read_u16(&mut self) -> (r: Option<u16>)
        ensures
            final(self).data() == old(self).data(),
            old(self).position() + 2 <= old(self).data().len() ==> {
                &&& r is Some
                &&& r.unwrap() as nat == le_nat(old(self).data().subrange(old(self).position() as int, (old(self).position() + 2) as int))
                &&& final(self).position() == old(self).position() + 2
            },
            old(self).position() + 2 > old(self).data().len() ==> {
                &&& r is None
                &&& final(self).position() == old(self).position()
            },
    {
        let ghost start = self.position();
        proof {
            use_type_invariant(&*self);
        }
        let r = self.read_uint(2);
        proof {
            lemma_pow256_values();
        }
        match r {
            Some(v) => Some(v as u16),
            None => None,
        }
    }

    /// The next four bytes, least significant first.
    pub fn read_u32(&mut self) -> (r: Option<u32>)
        ensures
            final(self).data() == old(self).data(),
            old(self).position() + 4 <= old(self).data().len() ==> {
                &&& r is Some
                &&& r.unwrap() as nat == le_nat(old(self).data().subrange(old(self).position() as int, (old(self).position() + 4) as int))
                &&& final(self).position() == old(self).position() + 4
            },
            old(self).position() + 4 > old(self).data().len() ==> {
                &&& r is None
                &&& final(self).position() == old(self).position()
            },
    {
        let ghost start = self.position();
        proof {
            use_type_invariant(&*self);
        }
        let r = self.read_uint(4);
        proof {
            lemma_pow256_values();
        }
        match r {
            Some(v) => Some(v as u32),
            None => None,
        }
    }

    /// The next eight bytes, least significant first.
    pub fn read_u64(&mut self) -> (r: Option<u64>)
        ensures
            final(self).data() == old(self).data(),
            old(self).position() + 8 <= old(self).data().len() ==> {
                &&& r is Some
                &&& r.unwrap() as nat == le_nat(old(self).data().subrange(old(self).position() as int, (old(self).position() + 8) as int))
                &&& final(self).position() == old(self).position() + 8
            },
            old(self).position() + 8 > old(self).data().len() ==> {
                &&& r is None
                &&& final(self).position() == old(self).position()
            },
    {
        let ghost start = self.position();
        proof {
            use_type_invariant(&*self);
        }
        let r = self.read_uint(8);
        proof {
            lemma_pow256_values();
        }
        r
    }

    /// The next four bytes as a two's complement number, least significant first.
    pub fn read_i32(&mut self) -> (r: Option<i32>)
        ensures
            final(self).data() == old(self).data(),
            old(self).position() + 4 <= old(self).data().len() ==> {
                &&& r is Some
                &&& r.unwrap() as int == signed_of(le_nat(old(self).data().subrange(old(self).position() as int, (old(self).position() + 4) as int)), 32)
                &&& final(self).position() == old(self).position() + 4
            },
            old(self).position() + 4 > old(self).data().len() ==> {
                &&& r is None
                &&& final(self).position() == old(self).position()
            },
    {
        proof {
            lemma_pow256_values();
        }
        match self.read_u32() {
            Some(v) => {
                if v < 0x8000_0000 {
                    Some(v as i32)
                } else {
                    Some(((v - 0x8000_0000) as i32) - 0x4000_0000 - 0x4000_0000)
                }
            },
            None => None,
        }
    }

    /// The next eight bytes as a two's complement number, least significant first.
    pub fn read_i64(&mut self) -> (r: Option<i64>)
        ensures
            final(self).data() == old(self).data(),
            old(self).position() + 8 <= old(self).data().len() ==> {
                &&& r is Some
                &&& r.unwrap() as int == signed_of(le_nat(old(self).data().subrange(old(self).position() as int, (old(self).position() + 8) as int)), 64)
                &&& final(self).position() == old(self).position() + 8
            },
            old(self).position() + 8 > old(self).data().len() ==> {
                &&& r is None
                &&& final(self).position() == old(self).position()
            },
    {
        proof {
            lemma_pow256_values();
        }
        match self.read_u64() {
            Some(v) => {
                if v < 0x8000_0000_0000_0000 {
                    Some(v as i64)
                } else {
                    Some(
                        ((v - 0x8000_0000_0000_0000) as i64) - 0x4000_0000_0000_0000
                            - 0x4000_0000_0000_0000,
                    )
                }
            },
            None => None,
        }
    }
}

pub proof fn lemma_pow256_monotone(a: nat, b: nat)
    requires
        a <= b,
    ensures
        pow256(a) <= pow256(b),
    decreases b,
{
    if a < b {
        lemma_pow256_monotone(a, (b - 1) as nat);
    }
}

} // verus!
