//! The codec: a code fixed once by its parameters, and the operations on
//! words of that code.

use vstd::prelude::*;
use crate::bits::flip_at;
use crate::bits::flipped;
use crate::decoder::locate;
use crate::decoder::located;
use crate::encoder::compute_parity;
use crate::encoder::remainder;
use crate::field::Gf;
use crate::field::GaloisField;
use crate::generator::build_generator;
use crate::generator::generator;
use crate::generator::lemma_generator;
use crate::nearest::differs_at;
use crate::nearest::lemma_encoded_is_codeword;
use crate::nearest::lemma_located_boundary;
use crate::nearest::lemma_located_sound;
use crate::nearest::near_codeword;
use crate::syndrome::is_codeword;

verus! {

/// What `decode` returns for a word that cannot be corrected.
pub const UNCORRECTABLE: i32 = -74;

/// The primitive polynomial that is used for degree `m` where the caller
/// names none.
pub open spec fn default_polynomial(m: int) -> u32 {
    if m == 5 {
        0x25
    } else if m == 6 {
        0x43
    } else if m == 7 {
        0x83
    } else if m == 8 {
        0x11d
    } else if m == 9 {
        0x211
    } else if m == 10 {
        0x409
    } else if m == 11 {
        0x805
    } else if m == 12 {
        0x1053
    } else if m == 13 {
        0x201b
    } else if m == 14 {
        0x402b
    } else {
        0x8003
    }
}

/// The field that the parameters `m` and `poly` ask for; 0 stands for the
/// default polynomial.
pub open spec fn chosen_field(m: int, poly: u32) -> Gf {
    Gf {
        m: m as u32,
        poly: if poly == 0 {
            default_polynomial(m)
        } else {
            poly
        },
    }
}

/// The parameters describe a code: the degree is supported, the capability
/// is at least one and leaves room for the parity bits, and the polynomial
/// is primitive.
pub open spec fn valid_params(m: int, t: int, poly: u32) -> bool {
    let gf = chosen_field(m, poly);
    &&& 5 <= m <= 15
    &&& 1 <= t
    &&& m * t < gf.order()
    &&& gf.is_primitive()
}

/// A binary BCH code.
#[derive(Debug)]
pub struct BCH {
    field: GaloisField,
    t: u32,
    gen: Vec<u8>,
}

impl BCH {
    /// The field of the code.
    pub closed spec fn gf(&self) -> Gf {
        self.field.gf()
    }

    /// The number of bit errors that the code is built to correct.
    pub closed spec fn capability(&self) -> nat {
        self.t as nat
    }

    /// The tables of the field and the stored generator polynomial are
    /// those of the field and the capability.
    pub closed spec fn tables_ok(&self) -> bool {
        self.field.tables_ok() && self.gen@ == generator(self.gf(), self.capability())
    }

    /// The generator polynomial, highest-order coefficient first.
    pub open spec fn gen(&self) -> Seq<u8> {
        generator(self.gf(), self.capability())
    }

    /// The length of a full codeword in bits.
    pub open spec fn code_len(&self) -> nat {
        self.gf().order()
    }

    /// The number of parity bits of a codeword.
    pub open spec fn parity_len(&self) -> nat {
        (self.gen().len() - 1) as nat
    }

    /// The number of message bits of a full codeword.
    pub open spec fn message_len(&self) -> nat {
        (self.code_len() - self.parity_len()) as nat
    }

    /// The parameters are those of a code, and the tables fit them.
    /// Construction gives this, and nothing changes a code once built.
    pub open spec fn wf(&self) -> bool {
        &&& self.gf().is_primitive()
        &&& 1 <= self.capability()
        &&& self.gf().m * self.capability() < self.gf().order()
        &&& self.tables_ok()
    }

    /// What the parity bits of `msg` are.
    pub open spec fn parity(&self, msg: Seq<u8>) -> Seq<u8> {
        remainder(self.gen(), msg)
    }

    /// What decoding finds in the word made of `msg` followed by `ecc`.
    pub open spec fn errors(&self, msg: Seq<u8>, ecc: Seq<u8>) -> Option<Seq<u32>> {
        located(self.gf(), self.capability(), msg + ecc)
    }

    /// The word belongs to the code.
    pub open spec fn is_codeword(&self, word: Seq<u8>) -> bool {
        is_codeword(self.gf(), self.capability(), word)
    }

    /// The word differs from the codeword `cw` exactly at the positions
    /// `ps`, which differ from one another and are not more than the
    /// capability.
    pub open spec fn differs_at(&self, word: Seq<u8>, cw: Seq<u8>, ps: Seq<u32>) -> bool {
        differs_at(self.gf(), self.capability(), word, cw, ps)
    }

    /// Some codeword differs from the word in no more bits than the
    /// capability.
    pub open spec fn near_codeword(&self, word: Seq<u8>) -> bool {
        near_codeword(self.gf(), self.capability(), word)
    }

    /// Builds the code of degree `m` and capability `t` over the default
    /// primitive polynomial of that degree.
    pub fn init(m: i32, t: i32) -> (r: Result<BCH, &'static str>)
        ensures
            r.is_ok() <==> valid_params(m as int, t as int, 0),
            r matches Ok(b) ==> b.wf() && b.gf() == chosen_field(m as int, 0) && b.capability()
                == t,
            r matches Err(e) ==> e@ == "Invalid BCH params"@,
    {
        BCH::init_with_poly(m, t, 0)
    }

    /// Builds the code of degree `m` and capability `t` over the primitive
    /// polynomial `poly`, or over the default one where `poly` is 0.
    pub fn init_with_poly(m: i32, t: i32, poly: u32) -> (r: Result<BCH, &'static str>)
        ensures
            r.is_ok() <==> valid_params(m as int, t as int, poly),
            r matches Ok(b) ==> b.wf() && b.gf() == chosen_field(m as int, poly) && b.capability()
                == t,
            r matches Err(e) ==> e@ == "Invalid BCH params"@,
    {
        if m < 5 || m > 15 || t < 1 {
            return Err("Invalid BCH params");
        }
        let degree = m as u32;
        let size: u32 = 1u32 << degree;
        assert(32 <= size <= 32768) by (bit_vector)
            requires
                size == 1u32 << degree,
                5 <= degree <= 15,
        ;
        if t > 32767 {
            assert(m * t > 32767) by (nonlinear_arith)
                requires
                    m >= 5,
                    t > 32767,
            ;
            return Err("Invalid BCH params");
        }
        assert(0 <= m * t <= 15 * 32767) by (nonlinear_arith)
            requires
                5 <= m <= 15,
                1 <= t <= 32767,
        ;
        if m * t >= (size - 1) as i32 {
            return Err("Invalid BCH params");
        }
        assert(t < size) by (nonlinear_arith)
            requires
                m * t < size - 1,
                m >= 5,
                t >= 1,
        ;
        let chosen: u32 = if poly != 0 {
            poly
        } else if m == 5 {
            0x25
        } else if m == 6 {
            0x43
        } else if m == 7 {
            0x83
        } else if m == 8 {
            0x11d
        } else if m == 9 {
            0x211
        } else if m == 10 {
            0x409
        } else if m == 11 {
            0x805
        } else if m == 12 {
            0x1053
        } else if m == 13 {
            0x201b
        } else if m == 14 {
            0x402b
        } else {
            0x8003
        };
        match GaloisField::new(degree, chosen) {
            None => Err("Invalid BCH params"),
            Some(field) => {
                let gen = build_generator(&field, t as u32);
                Ok(BCH { field, t: t as u32, gen })
            },
        }
    }

    /// The degree of the field of the code.
    pub fn m(&self) -> (r: u32)
        requires
            self.wf(),
        ensures
            r == self.gf().m,
            5 <= r <= 15,
    {
        self.field.degree()
    }

    /// The length of a full codeword in bits, `2^m - 1`.
    pub fn n(&self) -> (r: u32)
        requires
            self.wf(),
        ensures
            r == self.code_len(),
    {
        self.field.order()
    }

    /// The number of bit errors that the code is built to correct.
    pub fn t(&self) -> (r: u32)
        requires
            self.wf(),
        ensures
            r == self.capability(),
    {
        self.t
    }

    /// The number of parity bits of a codeword: the degree of the generator
    /// polynomial.
    pub fn ecc_bits(&self) -> (r: u32)
        requires
            self.wf(),
        ensures
            r == self.parity_len(),
            1 <= r < self.code_len(),
    {
        proof {
            self.gf().lemma_size();
            lemma_generator(self.gf(), self.capability());
        }
        (self.gen.len() - 1) as u32
    }

    /// Computes the parity bits of a message that fills a codeword.
    pub fn encode(&self, msg: &[u8], ecc: &mut [u8])
        requires
            self.wf(),
            msg@.len() == self.message_len(),
            old(ecc)@.len() == self.parity_len(),
        ensures
            final(ecc)@ == self.parity(msg@),
            final(ecc)@.len() == self.parity_len(),
            self.is_codeword(msg@ + final(ecc)@),
    {
        self.encode_bits(msg, ecc)
    }

    /// Computes the parity bits of a message of any length that the code
    /// has room for.
    pub fn encode_bits(&self, msg: &[u8], ecc: &mut [u8])
        requires
            self.wf(),
            msg@.len() <= self.message_len(),
            old(ecc)@.len() == self.parity_len(),
        ensures
            final(ecc)@ == self.parity(msg@),
            final(ecc)@.len() == self.parity_len(),
            self.is_codeword(msg@ + final(ecc)@),
    {
        proof {
            lemma_generator(self.gf(), self.capability());
            lemma_encoded_is_codeword(self.gf(), self.capability(), msg@);
        }
        let reg = compute_parity(&self.gen, msg);
        let len = reg.len();
        let mut i: usize = 0;
        while i < len
            invariant
                len == reg@.len(),
                ecc@.len() == len,
                i <= len,
                forall|q: int| 0 <= q < i ==> #[trigger] ecc@[q] == reg@[q],
            decreases len - i,
        {
            ecc[i] = reg[i];
            i += 1;
        }
        proof {
            assert(ecc@ =~= reg@);
        }
    }

    /// Locates the bit errors in a full codeword. Returns their number, with
    /// their positions in the first entries of `errloc`, or `UNCORRECTABLE`.
    /// Position `p` is bit `p` of the message where `p` is below its length,
    /// and bit `p - msg.len()` of the parity otherwise.
    pub fn decode(&self, msg: &[u8], ecc: &[u8], errloc: &mut [u32]) -> (r: i32)
        requires
            self.wf(),
            msg@.len() == self.message_len(),
            ecc@.len() == self.parity_len(),
            old(errloc)@.len() >= self.capability(),
        ensures
            match self.errors(msg@, ecc@) {
                Some(p) => r == p.len() && p.len() <= self.capability() && final(errloc)@ == p
                    + old(errloc)@.skip(p.len() as int),
                None => r == UNCORRECTABLE && final(errloc)@ == old(errloc)@,
            },
            r == UNCORRECTABLE <==> !self.near_codeword(msg@ + ecc@),
            r != UNCORRECTABLE ==> 0 <= r <= self.capability() && self.is_codeword(
                flipped(msg@ + ecc@, final(errloc)@.take(r as int)),
            ),
    {
        self.decode_bits(msg, ecc, errloc)
    }

    /// Locates the bit errors in a codeword whose message has any length
    /// that the code has room for.
    pub fn decode_bits(&self, msg: &[u8], ecc: &[u8], errloc: &mut [u32]) -> (r: i32)
        requires
            self.wf(),
            msg@.len() <= self.message_len(),
            ecc@.len() == self.parity_len(),
            old(errloc)@.len() >= self.capability(),
        ensures
            match self.errors(msg@, ecc@) {
                Some(p) => r == p.len() && p.len() <= self.capability() && final(errloc)@ == p
                    + old(errloc)@.skip(p.len() as int),
                None => r == UNCORRECTABLE && final(errloc)@ == old(errloc)@,
            },
            r == UNCORRECTABLE <==> !self.near_codeword(msg@ + ecc@),
            r != UNCORRECTABLE ==> 0 <= r <= self.capability() && self.is_codeword(
                flipped(msg@ + ecc@, final(errloc)@.take(r as int)),
            ),
    {
        let ghost before = errloc@;
        proof {
            self.gf().lemma_size();
            lemma_generator(self.gf(), self.capability());
            let m = self.gf().m;
            let t = self.t;
            assert(t <= 32767) by (nonlinear_arith)
                requires
                    m * t < 32767,
                    m >= 5,
            ;
            lemma_located_sound(self.gf(), self.capability(), msg@ + ecc@);
            lemma_located_boundary(self.gf(), self.capability(), msg@ + ecc@);
        }
        match locate(&self.field, self.t, msg, ecc) {
            None => UNCORRECTABLE,
            Some(found) => {
                let count = found.len();
                let mut q: usize = 0;
                while q < count
                    invariant
                        count == found@.len(),
                        count <= before.len(),
                        errloc@.len() == before.len(),
                        q <= count,
                        forall|j: int| 0 <= j < q ==> #[trigger] errloc@[j] == found@[j],
                        forall|j: int| q <= j < before.len() ==> #[trigger] errloc@[j] == before[j],
                    decreases count - q,
                {
                    errloc[q] = found[q];
                    q += 1;
                }
                proof {
                    assert(errloc@ =~= found@ + before.skip(count as int));
                    assert(errloc@.take(count as int) =~= found@);
                }
                count as i32
            },
        }
    }

    /// Inverts the bits of `msg` at the first `nerr` positions of `errloc`.
    /// A position beyond the buffer is passed over, so that the buffer may
    /// hold the message alone or the whole codeword. Nothing is done for a
    /// count that is not positive.
    pub fn correct(&self, msg: &mut [u8], errloc: &[u32], nerr: i32)
        requires
            nerr <= errloc@.len(),
        ensures
            nerr <= 0 ==> final(msg)@ == old(msg)@,
            nerr > 0 ==> final(msg)@ == flipped(old(msg)@, errloc@.take(nerr as int)),
    {
        if nerr <= 0 {
            return ;
        }
        let ghost before = msg@;
        let count = nerr as usize;
        let mut i: usize = 0;
        proof {
            assert(errloc@.take(0) =~= Seq::empty());
        }
        while i < count
            invariant
                count <= errloc@.len(),
                i <= count,
                msg@.len() == before.len(),
                msg@ == flipped(before, errloc@.take(i as int)),
            decreases count - i,
        {
            let p = errloc[i] as usize;
            if p < msg.len() {
                let b = msg[p];
                msg[p] = b ^ 1;
            }
            proof {
                assert(errloc@.take(i + 1).drop_last() =~= errloc@.take(i as int));
                assert(msg@ =~= flip_at(flipped(before, errloc@.take(i as int)), errloc@[i as int] as int));
            }
            i += 1;
        }
    }
}

} // verus!
