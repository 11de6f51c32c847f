//! Folded Reed–Solomon codes over a multiplicative orbit, with the block
//! metric.
use vstd::prelude::*;

use crate::code::evaluations;
use crate::error::Error;
use crate::eval::horner;
use crate::field::Field;
use crate::polynomial::seq_wf;
use crate::validate::{find_zero, first_zero};

verus! {

/// `g^i` by repeated multiplication from one.
pub open spec fn power_seq<F: Field>(generator: F, i: nat) -> F
    decreases i,
{
    if i == 0 {
        F::one_spec()
    } else {
        power_seq(generator, (i - 1) as nat).mul_spec(generator)
    }
}

/// The orbit `1, g, g², …` of the given length.
pub open spec fn orbit_spec<F: Field>(generator: F, length: nat) -> Seq<F> {
    Seq::new(length, |i: int| power_seq(generator, i as nat))
}

/// The generator is zero or returns to one before `length` powers.
pub open spec fn orbit_too_short<F: Field>(generator: F, length: nat) -> bool {
    generator == F::zero_spec() || exists|i: int|
        0 < i < length && #[trigger] power_seq(generator, i as nat) == F::one_spec()
}

/// The first construction error of a folded code.
pub open spec fn folded_error<F: Field>(
    generator: F,
    multipliers: Seq<F>,
    dimension: usize,
    fold: usize,
) -> Option<Error> {
    let length = multipliers.len() as usize;
    if orbit_too_short(generator, multipliers.len()) {
        Some(Error::InsufficientOrbit { length })
    } else if dimension == 0 || dimension >= length {
        Some(Error::InvalidDimension { dimension, length })
    } else if first_zero(multipliers) < multipliers.len() {
        Some(Error::ZeroMultiplier { index: first_zero(multipliers) as usize })
    } else if fold == 0 || length % fold != 0 {
        Some(Error::FoldParameter { fold, length })
    } else {
        None
    }
}

/// The number of the first `m` chunks of `size` symbols in which `a` and `b`
/// differ.
pub open spec fn chunk_mismatches<F>(a: Seq<F>, b: Seq<F>, size: nat, m: int) -> nat
    decreases m,
{
    if m <= 0 {
        0
    } else {
        let start = (m - 1) * size;
        let previous = chunk_mismatches(a, b, size, m - 1);
        if a.subrange(start, start + size) != b.subrange(start, start + size) {
            previous + 1
        } else {
            previous
        }
    }
}

/// Block distance counts whole blocks: each of the first `m` chunks adds one
/// exactly when the two words differ at some position inside it, so the
/// distance is at most the number of chunks, and it is zero exactly when the
/// words agree at every position the chunks cover.
pub proof fn law_chunk_distance_compares_whole_blocks<F>(a: Seq<F>, b: Seq<F>, size: nat, m: int)
    requires
        size > 0,
        0 <= m,
        m * size <= a.len(),
        m * size <= b.len(),
    ensures
        chunk_mismatches(a, b, size, m) <= m,
        m > 0 ==> chunk_mismatches(a, b, size, m) == chunk_mismatches(a, b, size, m - 1) + if exists|q: int|
            (m - 1) * size <= q < m * size && #[trigger] a[q] != b[q] {
            1nat
        } else {
            0nat
        },
        chunk_mismatches(a, b, size, m) == 0 <==> forall|q: int| 0 <= q < m * size ==> #[trigger] a[q]
            == b[q],
    decreases m,
{
    if m > 0 {
        assert((m - 1) * size + size == m * size) by (nonlinear_arith);
        assert((m - 1) * size <= m * size) by (nonlinear_arith)
            requires
                size > 0,
                m > 0,
        ;
        law_chunk_distance_compares_whole_blocks(a, b, size, m - 1);
        let start = (m - 1) * size;
        assert(start + size == m * size);
        let ca = a.subrange(start, start + size);
        let cb = b.subrange(start, start + size);
        if exists|q: int| start <= q < m * size && #[trigger] a[q] != b[q] {
            let q = choose|q: int| start <= q < m * size && #[trigger] a[q] != b[q];
            assert(ca[q - start] != cb[q - start]);
        } else {
            assert(ca =~= cb);
        }
        if forall|q: int| 0 <= q < m * size ==> #[trigger] a[q] == b[q] {
            assert forall|q: int| 0 <= q < (m - 1) * size implies #[trigger] a[q] == b[q] by {
                assert(a[q] == b[q]);
            }
            assert(ca =~= cb) by {
                assert forall|i: int| 0 <= i < size implies ca[i] == cb[i] by {
                    assert(a[start + i] == b[start + i]);
                }
            }
        }
        assert(start + size == m * size);
        if chunk_mismatches(a, b, size, m) == 0 {
            assert(chunk_mismatches(a, b, size, m - 1) == 0);
            assert(ca == cb);
            assert forall|q: int| 0 <= q < m * size implies #[trigger] a[q] == b[q] by {
                if q < start {
                    assert(a[q] == b[q]);
                } else {
                    assert(ca[q - start] == cb[q - start]);
                }
            }
        }
    } else {
        assert(m * size == 0) by (nonlinear_arith)
            requires
                m == 0,
        ;
    }
}

/// The number of complete chunks both words have.
pub open spec fn common_chunks(a_len: nat, b_len: nat, size: nat) -> nat {
    if a_len / size <= b_len / size {
        a_len / size
    } else {
        b_len / size
    }
}

/// The number of complete `size`-symbol chunks in which `a` and `b` differ
/// (chunks past the shorter word are ignored).
pub fn chunk_distance<F: Field>(a: &[F], b: &[F], size: usize) -> (r: usize)
    requires
        size > 0,
    ensures
        r == chunk_mismatches(
            a@,
            b@,
            size as nat,
            common_chunks(a@.len(), b@.len(), size as nat) as int,
        ),
{
    let chunks = if a.len() / size <= b.len() / size {
        a.len() / size
    } else {
        b.len() / size
    };
    proof {
        vstd::arithmetic::div_mod::lemma_fundamental_div_mod(a@.len() as int, size as int);
        vstd::arithmetic::div_mod::lemma_fundamental_div_mod(b@.len() as int, size as int);
        vstd::arithmetic::div_mod::lemma_mod_bound(a@.len() as int, size as int);
        vstd::arithmetic::div_mod::lemma_mod_bound(b@.len() as int, size as int);
        vstd::arithmetic::mul::lemma_mul_is_commutative(chunks as int, size as int);
        vstd::arithmetic::mul::lemma_mul_inequality(chunks as int, a@.len() as int / size as int, size as int);
        vstd::arithmetic::mul::lemma_mul_inequality(chunks as int, b@.len() as int / size as int, size as int);
    }
    let mut count: usize = 0;
    let mut chunk: usize = 0;
    let a_length = a.len();
    let b_length = b.len();
    while chunk < chunks
        invariant
            size > 0,
            a_length == a@.len(),
            b_length == b@.len(),
            chunks * size <= a@.len(),
            chunks * size <= b@.len(),
            chunk <= chunks,
            count == chunk_mismatches(a@, b@, size as nat, chunk as int),
            count <= chunk,
        decreases chunks - chunk,
    {
        proof {
            vstd::arithmetic::mul::lemma_mul_is_distributive_add_other_way(size as int, chunk as int, 1);
            vstd::arithmetic::mul::lemma_mul_inequality(chunk as int + 1, chunks as int, size as int);
        }
        let start = chunk * size;
        let mut equal = true;
        let mut i: usize = 0;
        while i < size
            invariant
                size > 0,
                a_length == a@.len(),
                b_length == b@.len(),
                start + size <= a@.len(),
                start + size <= b@.len(),
                i <= size,
                equal == forall|q: int| start <= q < start + i ==> #[trigger] a@[q] == b@[q],
            decreases size - i,
        {
            if !a[start + i].equals(b[start + i]) {
                equal = false;
            }
            i += 1;
        }
        proof {
            if equal {
                assert(a@.subrange(start as int, start + size) =~= b@.subrange(start as int, start + size));
            } else {
                let q = choose|q: int| start <= q < start + size && #[trigger] a@[q] != b@[q];
                assert(a@.subrange(start as int, start + size)[q - start] != b@.subrange(start as int, start + size)[q - start]);
            }
        }
        if !equal {
            count += 1;
        }
        chunk += 1;
    }
    count
}

/// A folded Reed–Solomon code: the GRS code on the orbit `1, γ, …, γ^{n-1}`
/// read in blocks of `m` consecutive symbols.
#[derive(Debug)]
pub struct FoldedRsCode<F: Field> {
    orbit: Vec<F>,
    multipliers: Vec<F>,
    dimension: usize,
    fold: usize,
    generator: F,
}

impl<F: Field> FoldedRsCode<F> {
    pub closed spec fn orbit_view(&self) -> Seq<F> {
        self.orbit@
    }

    pub closed spec fn generator_view(&self) -> F {
        self.generator
    }

    pub closed spec fn multipliers_view(&self) -> Seq<F> {
        self.multipliers@
    }

    pub closed spec fn dimension_view(&self) -> usize {
        self.dimension
    }

    pub closed spec fn fold_view(&self) -> usize {
        self.fold
    }

    pub open spec fn wf(&self) -> bool {
        &&& F::field_valid()
        &&& self.generator_view().wf()
        &&& seq_wf(self.multipliers_view())
        &&& seq_wf(self.orbit_view())
        &&& self.orbit_view() == orbit_spec(self.generator_view(), self.multipliers_view().len())
        &&& folded_error(
            self.generator_view(),
            self.multipliers_view(),
            self.dimension_view(),
            self.fold_view(),
        ) is None
    }

    /// The codeword of a `k`-symbol message.
    pub open spec fn codeword_spec(&self, message: Seq<F>) -> Seq<F> {
        evaluations(message, self.orbit_view(), self.multipliers_view())
    }

    /// Build a folded code on the orbit of `generator`, with `n` the number
    /// of multipliers and fold `m` dividing `n`.
    pub fn new(generator: F, multipliers: Vec<F>, dimension: usize, fold: usize) -> (r: Result<
        Self,
        Error,
    >)
        requires
            generator.wf(),
            seq_wf(multipliers@),
        ensures
            r is Ok <==> folded_error(generator, multipliers@, dimension, fold) is None,
            r matches Err(e) ==> folded_error(generator, multipliers@, dimension, fold) == Some(e),
            r matches Ok(code) ==> {
                &&& code.wf()
                &&& code.generator_view() == generator
                &&& code.multipliers_view() == multipliers@
                &&& code.dimension_view() == dimension
                &&& code.fold_view() == fold
            },
    {
        let length = multipliers.len();
        proof {
            F::lemma_closure(generator, generator);
        }
        if generator.is_zero() {
            return Err(Error::InsufficientOrbit { length });
        }
        let mut orbit: Vec<F> = Vec::with_capacity(length);
        let mut power = F::one();
        let one = F::one();
        let mut index: usize = 0;
        while index < length
            invariant
                F::field_valid(),
                generator.wf(),
                generator != F::zero_spec(),
                one == F::one_spec(),
                length == multipliers@.len(),
                index <= length,
                power == power_seq(generator, index as nat),
                power.wf(),
                orbit@ == orbit_spec(generator, index as nat),
                seq_wf(orbit@),
                forall|i: int| 0 < i < index ==> #[trigger] power_seq(generator, i as nat) != F::one_spec(),
            decreases length - index,
        {
            if index > 0 && power.equals(one) {
                proof {
                    let w = index as int;
                    assert(power_seq(generator, w as nat) == F::one_spec());
                    assert(0 < w < length);
                    assert(orbit_too_short(generator, length as nat));
                }
                return Err(Error::InsufficientOrbit { length });
            }
            orbit.push(power);
            proof {
                assert(orbit@ =~= orbit_spec(generator, index as nat + 1));
            }
            power = power.mul(generator);
            index += 1;
        }
        proof {
            assert(!orbit_too_short(generator, length as nat));
        }
        if dimension == 0 || dimension >= length {
            return Err(Error::InvalidDimension { dimension, length });
        }
        let zero_index = find_zero(multipliers.as_slice());
        if zero_index < multipliers.len() {
            return Err(Error::ZeroMultiplier { index: zero_index });
        }
        if fold == 0 || length % fold != 0 {
            return Err(Error::FoldParameter { fold, length });
        }
        Ok(FoldedRsCode { orbit, multipliers, dimension, fold, generator })
    }

    /// Code length `n` in symbols.
    pub fn length(&self) -> (r: usize)
        ensures
            r == self.multipliers_view().len(),
    {
        self.multipliers.len()
    }

    /// Message dimension `k`.
    pub fn dimension(&self) -> (r: usize)
        ensures
            r == self.dimension_view(),
    {
        self.dimension
    }

    /// The fold `m`.
    pub fn fold(&self) -> (r: usize)
        ensures
            r == self.fold_view(),
    {
        self.fold
    }

    /// The number of blocks `n / m`.
    pub fn blocks(&self) -> (r: usize)
        requires
            self.wf(),
        ensures
            r == self.multipliers_view().len() / (self.fold_view() as nat),
    {
        self.multipliers.len() / self.fold
    }

    /// The orbit points `1, γ, …, γ^{n-1}`.
    pub fn orbit(&self) -> (r: &[F])
        ensures
            r@ == self.orbit_view(),
    {
        self.orbit.as_slice()
    }

    /// The column multipliers.
    pub fn multipliers(&self) -> (r: &[F])
        ensures
            r@ == self.multipliers_view(),
    {
        self.multipliers.as_slice()
    }

    /// Encode a `k`-symbol message into the flat `n`-symbol word.
    pub fn encode_into(&self, message: &[F], codeword: &mut [F]) -> (r: Result<(), Error>)
        requires
            self.wf(),
            seq_wf(message@),
        ensures
            message@.len() != self.dimension_view() ==> r == Err::<(), Error>(
                Error::MessageLength {
                    expected: self.dimension_view(),
                    got: message@.len() as usize,
                },
            ),
            message@.len() == self.dimension_view() && old(codeword)@.len() != self.multipliers_view().len()
                ==> r == Err::<(), Error>(
                Error::CodewordLength {
                    expected: self.multipliers_view().len() as usize,
                    got: old(codeword)@.len() as usize,
                },
            ),
            r is Err ==> final(codeword)@ == old(codeword)@,
            r is Ok <==> message@.len() == self.dimension_view() && old(codeword)@.len()
                == self.multipliers_view().len(),
            r is Ok ==> final(codeword)@ == self.codeword_spec(message@),
    {
        if message.len() != self.dimension {
            return Err(Error::MessageLength { expected: self.dimension, got: message.len() });
        }
        let length = self.multipliers.len();
        if codeword.len() != length {
            return Err(Error::CodewordLength { expected: length, got: codeword.len() });
        }
        let mut slot: usize = 0;
        while slot < length
            invariant
                self.wf(),
                seq_wf(message@),
                length == self.multipliers_view().len(),
                self.orbit_view().len() == length,
                codeword@.len() == length,
                slot <= length,
                forall|i: int|
                    0 <= i < slot ==> #[trigger] codeword@[i] == self.codeword_spec(message@)[i],
            decreases length - slot,
        {
            let value = horner(message, self.orbit[slot]);
            codeword[slot] = self.multipliers[slot].mul(value);
            slot += 1;
        }
        proof {
            assert(codeword@ =~= self.codeword_spec(message@));
        }
        Ok(())
    }

    /// Block `index` of a flat word: symbols `index·m .. index·m + m`.
    pub fn block<'w>(&self, word: &'w [F], index: usize) -> (r: &'w [F])
        requires
            (index + 1) * self.fold_view() <= word@.len(),
        ensures
            r@ == word@.subrange(
                index * self.fold_view(),
                index * self.fold_view() + self.fold_view(),
            ),
    {
        let word_length = word.len();
        proof {
            vstd::arithmetic::mul::lemma_mul_is_distributive_add_other_way(self.fold as int, index as int, 1);
        }
        let start = index * self.fold;
        &word[start..start + self.fold]
    }

    /// The number of blocks in which two words differ.
    pub fn block_distance(&self, a: &[F], b: &[F]) -> (r: usize)
        requires
            self.wf(),
        ensures
            r == chunk_mismatches(
                a@,
                b@,
                self.fold_view() as nat,
                common_chunks(a@.len(), b@.len(), self.fold_view() as nat) as int,
            ),
    {
        chunk_distance(a, b, self.fold)
    }
}

} // verus!
