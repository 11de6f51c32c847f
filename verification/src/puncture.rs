//! Punctured generalized Reed–Solomon codes: a GRS code with a set of
//! coordinates deleted.
use vstd::prelude::*;

use crate::decode::{low_degree_part, low_part, views};
use crate::domain::EvaluationDomain;
use crate::error::Error;
use crate::eval::horner;
use crate::field::Field;
use crate::outcome::UniqueDecode;
use crate::polynomial::{eval_seq, seq_wf, Polynomial};
use crate::validate::{all_nonzero, find_zero, first_zero, lemma_first_zero};

verus! {

/// Strictly increasing.
pub open spec fn strictly_increasing(s: Seq<usize>) -> bool {
    forall|i: int, j: int| 0 <= i < j < s.len() ==> s[i] < s[j]
}

/// The value `v` occurs at two positions.
pub open spec fn occurs_twice(s: Seq<usize>, v: usize) -> bool {
    exists|i: int, j: int| 0 <= i < j < s.len() && #[trigger] s[i] == v && #[trigger] s[j] == v
}

/// Some value below `length` occurs twice.
pub open spec fn has_duplicate_below(s: Seq<usize>, length: usize) -> bool {
    exists|v: usize| v < length && occurs_twice(s, v)
}

/// Some value is at least `length`.
pub open spec fn has_out_of_range(s: Seq<usize>, length: usize) -> bool {
    exists|i: int| 0 <= i < s.len() && s[i] >= length
}

/// The error the sorted puncture scan reports first: the smallest repeated
/// in-range index, else the smallest out-of-range index.
pub open spec fn puncture_set_error(punctures: Seq<usize>, length: usize) -> Option<Error> {
    if has_duplicate_below(punctures, length) {
        let v = choose|v: usize|
            v < length && occurs_twice(punctures, v) && forall|w: usize|
                w < length && occurs_twice(punctures, w) ==> v <= w;
        Some(Error::DuplicatePuncture { index: v })
    } else if has_out_of_range(punctures, length) {
        let v = choose|v: usize|
            punctures.contains(v) && v >= length && forall|w: usize|
                punctures.contains(w) && w >= length ==> v <= w;
        Some(Error::PunctureIndex { index: v, length })
    } else {
        None
    }
}

/// The first construction error: multiplier count, a zero multiplier, the
/// dimension range `1 <= k < n`, the puncture set, then too few survivors.
pub open spec fn punctured_error<F: Field>(
    length: usize,
    multipliers: Seq<F>,
    dimension: usize,
    punctures: Seq<usize>,
) -> Option<Error> {
    if multipliers.len() != length {
        Some(Error::MultiplierCount { expected: length, got: multipliers.len() as usize })
    } else if first_zero(multipliers) < multipliers.len() {
        Some(Error::ZeroMultiplier { index: first_zero(multipliers) as usize })
    } else if dimension < 1 || dimension >= length {
        Some(Error::InvalidDimension { dimension, length })
    } else if puncture_set_error(punctures, length) is Some {
        puncture_set_error(punctures, length)
    } else if length - punctures.len() < dimension {
        Some(
            Error::PunctureLength {
                remaining: (length - punctures.len()) as usize,
                dimension,
            },
        )
    } else {
        None
    }
}

/// `(w_i · f(α_i))` over the first `m` coordinates that are not punctured.
pub open spec fn surviving_evaluations<F: Field>(
    coefficients: Seq<F>,
    points: Seq<F>,
    multipliers: Seq<F>,
    punctures: Seq<usize>,
    m: int,
) -> Seq<F>
    decreases m,
{
    if m <= 0 {
        Seq::empty()
    } else {
        let previous = surviving_evaluations(coefficients, points, multipliers, punctures, m - 1);
        if punctures.contains((m - 1) as usize) {
            previous
        } else {
            previous.push(multipliers[m - 1].mul_spec(eval_seq(coefficients, points[m - 1])))
        }
    }
}

/// The elements of `s` at the first `m` coordinates that are not punctured.
pub open spec fn surviving<F>(s: Seq<F>, punctures: Seq<usize>, m: int) -> Seq<F>
    decreases m,
{
    if m <= 0 {
        Seq::empty()
    } else {
        let previous = surviving(s, punctures, m - 1);
        if punctures.contains((m - 1) as usize) {
            previous
        } else {
            previous.push(s[m - 1])
        }
    }
}

/// Coordinate `i` is punctured.
pub open spec fn punctured_at(punctures: Seq<usize>, i: int) -> bool {
    punctures.contains(i as usize)
}

/// The puncture set deletes whole `fold`-blocks of a length-`n` domain.
pub open spec fn blocks_aligned_spec(punctures: Seq<usize>, base_length: nat, fold: nat) -> bool {
    &&& fold > 0
    &&& base_length % fold == 0
    &&& forall|i: int|
        0 <= i < base_length ==> #[trigger] punctured_at(punctures, i) == punctured_at(
            punctures,
            i - i % (fold as int),
        )
}

/// Whether `value` occurs in `s`.
pub fn contains_index(s: &[usize], value: usize) -> (r: bool)
    ensures
        r == s@.contains(value),
{
    let mut i: usize = 0;
    while i < s.len()
        invariant
            i <= s@.len(),
            forall|j: int| 0 <= j < i ==> s@[j] != value,
        decreases s@.len() - i,
    {
        if s[i] == value {
            return true;
        }
        i += 1;
    }
    false
}

/// Whether the puncture set deletes whole `fold`-blocks of the base domain,
/// so the surviving consecutive orbit stays foldable.
pub fn blocks_aligned(punctures: &[usize], base_length: usize, fold: usize) -> (r: bool)
    ensures
        r == blocks_aligned_spec(punctures@, base_length as nat, fold as nat),
{
    if fold == 0 || base_length % fold != 0 {
        return false;
    }
    let blocks = base_length / fold;
    let mut block: usize = 0;
    proof {
        vstd::arithmetic::div_mod::lemma_fundamental_div_mod(base_length as int, fold as int);
        vstd::arithmetic::mul::lemma_mul_is_commutative(blocks as int, fold as int);
    }
    while block < blocks
        invariant
            fold > 0,
            base_length % fold == 0,
            blocks == base_length / fold,
            blocks * fold == base_length,
            block <= blocks,
            forall|i: int|
                0 <= i < block * fold ==> #[trigger] punctured_at(punctures@, i) == punctured_at(
                    punctures@,
                    i - i % (fold as int),
                ),
        decreases blocks - block,
    {
        proof {
            vstd::arithmetic::mul::lemma_mul_is_distributive_add_other_way(fold as int, block as int, 1);
            vstd::arithmetic::mul::lemma_mul_inequality(block as int + 1, blocks as int, fold as int);
        }
        let start = block * fold;
        let first = contains_index(punctures, start);
        let mut index = start + 1;
        while index < start + fold
            invariant
                fold > 0,
                start == block * fold,
                start + fold <= base_length,
                start < index <= start + fold,
                first == punctures@.contains(start),
                forall|i: int|
                    0 <= i < block * fold ==> #[trigger] punctured_at(punctures@, i) == punctured_at(
                        punctures@,
                        i - i % (fold as int),
                    ),
                forall|i: int| start <= i < index ==> #[trigger] punctured_at(punctures@, i) == first,
            decreases start + fold - index,
        {
            if contains_index(punctures, index) != first {
                proof {
                    let i = index as int;
                    vstd::arithmetic::mul::lemma_mul_is_commutative(block as int, fold as int);
                    vstd::arithmetic::div_mod::lemma_fundamental_div_mod_converse(
                        i,
                        fold as int,
                        block as int,
                        i - start,
                    );
                    assert(i - i % (fold as int) == start);
                    assert(punctured_at(punctures@, i) != punctured_at(punctures@, start as int));
                    assert(i < base_length);
                }
                return false;
            }
            index += 1;
        }
        proof {
            assert forall|i: int|
                0 <= i < (block + 1) * fold implies #[trigger] punctured_at(punctures@, i)
                == punctured_at(punctures@, i - i % (fold as int)) by {
                if i >= block * fold {
                    vstd::arithmetic::mul::lemma_mul_is_commutative(block as int, fold as int);
                    vstd::arithmetic::div_mod::lemma_fundamental_div_mod_converse(
                        i,
                        fold as int,
                        block as int,
                        i - start,
                    );
                }
            }
        }
        block += 1;
    }
    true
}

/// A punctured generalized Reed–Solomon code.
///
/// The base code evaluates a degree-`< k` message on `n` distinct points with
/// nonzero multipliers; the punctured code deletes the coordinates listed in
/// the puncture set, keeping the rest in ascending order.
#[derive(Debug)]
pub struct PuncturedGrsCode<F: Field> {
    domain: EvaluationDomain<F>,
    multipliers: Vec<F>,
    dimension: usize,
    punctures: Vec<usize>,
}

impl<F: Field> PuncturedGrsCode<F> {
    pub closed spec fn points_view(&self) -> Seq<F> {
        self.domain@
    }

    pub closed spec fn multipliers_view(&self) -> Seq<F> {
        self.multipliers@
    }

    pub closed spec fn dimension_view(&self) -> usize {
        self.dimension
    }

    pub closed spec fn punctures_view(&self) -> Seq<usize> {
        self.punctures@
    }

    pub open spec fn wf(&self) -> bool {
        &&& F::field_valid()
        &&& self.points_view().len() > 0
        &&& self.points_view().len() <= usize::MAX
        &&& seq_wf(self.points_view())
        &&& crate::domain::distinct(self.points_view())
        &&& seq_wf(self.multipliers_view())
        &&& punctured_error(
            self.points_view().len() as usize,
            self.multipliers_view(),
            self.dimension_view(),
            self.punctures_view(),
        ) is None
        &&& strictly_increasing(self.punctures_view())
    }

    /// The codeword of a `k`-symbol message.
    pub open spec fn codeword_spec(&self, message: Seq<F>) -> Seq<F> {
        surviving_evaluations(
            message,
            self.points_view(),
            self.multipliers_view(),
            self.punctures_view(),
            self.points_view().len() as int,
        )
    }

    /// Build a punctured GRS code.
    ///
    /// The puncture set may be given in any order; it is stored ascending.
    pub fn new(
        domain: EvaluationDomain<F>,
        multipliers: Vec<F>,
        dimension: usize,
        punctures: Vec<usize>,
    ) -> (r: Result<Self, Error>)
        requires
            domain.wf(),
            seq_wf(multipliers@),
        ensures
            r is Ok <==> punctured_error(domain@.len() as usize, multipliers@, dimension, punctures@)
                is None,
            r matches Err(e) ==> punctured_error(
                domain@.len() as usize,
                multipliers@,
                dimension,
                punctures@,
            ) == Some(e),
            r matches Ok(code) ==> {
                &&& code.wf()
                &&& code.points_view() == domain@
                &&& code.multipliers_view() == multipliers@
                &&& code.dimension_view() == dimension
                &&& forall|v: usize| #[trigger] code.punctures_view().contains(v) == punctures@.contains(v)
            },
    {
        let length = domain.len();
        if multipliers.len() != length {
            return Err(Error::MultiplierCount { expected: length, got: multipliers.len() });
        }
        let zero_index = find_zero(multipliers.as_slice());
        if zero_index < multipliers.len() {
            return Err(Error::ZeroMultiplier { index: zero_index });
        }
        if dimension < 1 || dimension >= length {
            return Err(Error::InvalidDimension { dimension, length });
        }
        let sorted = match sorted_puncture_set(punctures.as_slice(), length) {
            Ok(sorted) => sorted,
            Err(e) => {
                return Err(e);
            },
        };
        proof {
            lemma_same_length(punctures@, sorted@, length);
            lemma_increasing_bound_pub(sorted@, length);
        }
        let remaining = length - sorted.len();
        if remaining < dimension {
            return Err(Error::PunctureLength { remaining, dimension });
        }
        proof {
            assert(punctured_error(length, multipliers@, dimension, sorted@) is None) by {
                lemma_no_set_error(sorted@, length);
            }
        }
        Ok(PuncturedGrsCode { domain, multipliers, dimension, punctures: sorted })
    }

    /// Code length `n - |S|`.
    pub fn length(&self) -> (r: usize)
        requires
            self.wf(),
        ensures
            r == self.points_view().len() - self.punctures_view().len(),
    {
        self.domain.len() - self.punctures.len()
    }

    /// Base code length `n`.
    pub fn base_length(&self) -> (r: usize)
        ensures
            r == self.points_view().len(),
    {
        self.domain.len()
    }

    /// Message dimension `k`.
    pub fn dimension(&self) -> (r: usize)
        ensures
            r == self.dimension_view(),
    {
        self.dimension
    }

    /// The base column multipliers `v`.
    pub fn multipliers(&self) -> (r: &[F])
        ensures
            r@ == self.multipliers_view(),
    {
        self.multipliers.as_slice()
    }

    /// The base evaluation domain.
    pub fn domain(&self) -> (r: &EvaluationDomain<F>)
        ensures
            r@ == self.points_view(),
    {
        &self.domain
    }

    /// The puncture set in ascending order.
    pub fn punctures(&self) -> (r: &[usize])
        ensures
            r@ == self.punctures_view(),
    {
        self.punctures.as_slice()
    }

    /// Encode a `k`-symbol message into the surviving coordinates.
    pub fn encode_into(&self, message: &[F], codeword: &mut [F]) -> (r: Result<(), Error>)
        requires
            self.wf(),
            seq_wf(message@),
        ensures
            message@.len() != self.dimension_view() ==> r == Err::<(), Error>(
                Error::MessageLength {
                    expected: self.dimension_view(),
                    got: message@.len() as usize,
                },
            ),
            message@.len() == self.dimension_view() && old(codeword)@.len() != self.points_view().len()
                - self.punctures_view().len() ==> r == Err::<(), Error>(
                Error::CodewordLength {
                    expected: (self.points_view().len() - self.punctures_view().len()) as usize,
                    got: old(codeword)@.len() as usize,
                },
            ),
            r is Err ==> final(codeword)@ == old(codeword)@,
            r is Ok <==> message@.len() == self.dimension_view() && old(codeword)@.len()
                == self.points_view().len() - self.punctures_view().len(),
            r is Ok ==> final(codeword)@ == self.codeword_spec(message@),
    {
        let dimension = self.dimension;
        let length = self.length();
        if message.len() != dimension {
            return Err(Error::MessageLength { expected: dimension, got: message.len() });
        }
        if codeword.len() != length {
            return Err(Error::CodewordLength { expected: length, got: codeword.len() });
        }
        let points = self.domain.points();
        let n = points.len();
        let ghost p = self.punctures@;
        proof {
            lemma_surviving_len(points@, self.multipliers@, message@, p, n as int);
            lemma_count_all_pub(p, n as int);
        }
        let mut slot: usize = 0;
        let mut i: usize = 0;
        while i < n
            invariant
                self.wf(),
                p == self.punctures_view(),
                seq_wf(message@),
                points@ == self.points_view(),
                n == points@.len(),
                codeword@.len() == length,
                length == n - p.len(),
                i <= n,
                slot == surviving_evaluations(message@, points@, self.multipliers_view(), p, i as int).len(),
                surviving_evaluations(message@, points@, self.multipliers_view(), p, n as int).len() == length,
                forall|j: int|
                    0 <= j < slot ==> #[trigger] codeword@[j] == surviving_evaluations(
                        message@,
                        points@,
                        self.multipliers_view(),
                        p,
                        i as int,
                    )[j],
            decreases n - i,
        {
            proof {
                lemma_surviving_prefix_len(points@, self.multipliers@, message@, p, i as int + 1, n as int);
            }
            if !contains_index(self.punctures.as_slice(), i) {
                let value = horner(message, points[i]);
                codeword[slot] = self.multipliers[i].mul(value);
                slot += 1;
            }
            i += 1;
        }
        proof {
            assert(codeword@ =~= self.codeword_spec(message@));
        }
        Ok(())
    }

    /// Whether the puncture set deletes whole `fold`-blocks of the base
    /// domain (see [`blocks_aligned`]).
    pub fn is_block_aligned(&self, fold: usize) -> (r: bool)
        ensures
            r == blocks_aligned_spec(self.punctures_view(), self.points_view().len(), fold as nat),
    {
        blocks_aligned(self.punctures.as_slice(), self.domain.len(), fold)
    }

    /// The MDS unique-decoding radius `⌊(n - |S| - k)/2⌋` of the punctured code.
    pub fn unique_radius(&self) -> (r: usize)
        requires
            self.wf(),
        ensures
            r == (self.points_view().len() - self.punctures_view().len() - self.dimension_view()) / 2,
    {
        (self.length() - self.dimension) / 2
    }
}

proof fn lemma_surviving_len<F: Field>(
    points: Seq<F>,
    multipliers: Seq<F>,
    message: Seq<F>,
    p: Seq<usize>,
    m: int,
)
    requires
        0 <= m <= points.len(),
        strictly_increasing(p),
        forall|i: int| 0 <= i < p.len() ==> p[i] < points.len(),
    ensures
        surviving_evaluations(message, points, multipliers, p, m).len() + count_in(p, m) == m,
    decreases m,
{
    if m > 0 {
        lemma_surviving_len(points, multipliers, message, p, m - 1);
    }
}

/// The number of entries of `p` below `m` (for a duplicate-free `p`).
pub open spec fn count_in(p: Seq<usize>, m: int) -> nat
    decreases m,
{
    if m <= 0 {
        0
    } else if p.contains((m - 1) as usize) {
        count_in(p, m - 1) + 1
    } else {
        count_in(p, m - 1)
    }
}

pub proof fn lemma_increasing_bound_pub(s: Seq<usize>, length: usize)
    requires
        strictly_increasing(s),
        forall|i: int| 0 <= i < s.len() ==> s[i] < length,
    ensures
        s.len() <= length,
{
    assert forall|i: int| 0 <= i < s.len() implies s[i] >= i by {
        lemma_increasing_at_least(s, i);
    }
    if s.len() > 0 {
        assert(s[s.len() - 1] >= s.len() - 1);
    }
}

proof fn lemma_increasing_at_least(s: Seq<usize>, i: int)
    requires
        strictly_increasing(s),
        0 <= i < s.len(),
    ensures
        s[i] >= i,
    decreases i,
{
    if i > 0 {
        lemma_increasing_at_least(s, i - 1);
    }
}

/// Adding a new largest-so-far element `last` adds one to the count below
/// every bound past it.
proof fn lemma_count_in_extend(p: Seq<usize>, q: Seq<usize>, last: usize, m: int)
    requires
        forall|x: usize| #[trigger] p.contains(x) == (q.contains(x) || x == last),
        !q.contains(last),
        m <= usize::MAX,
    ensures
        count_in(p, m) == count_in(q, m) + (if 0 <= last < m {
            1int
        } else {
            0int
        }),
    decreases m,
{
    if m > 0 {
        lemma_count_in_extend(p, q, last, m - 1);
        assert(p.contains((m - 1) as usize) == (q.contains((m - 1) as usize) || (m - 1) as usize
            == last));
    }
}

/// A strictly increasing sequence of indices below `n` has all of them counted.
pub proof fn lemma_count_all_pub(p: Seq<usize>, n: int)
    requires
        strictly_increasing(p),
        forall|i: int| 0 <= i < p.len() ==> p[i] < n,
        n <= usize::MAX,
    ensures
        count_in(p, n) == p.len(),
    decreases p.len(),
{
    if p.len() == 0 {
        lemma_count_empty(p, n);
    } else {
        let q = p.drop_last();
        let last = p.last();
        lemma_count_all_pub(q, n);
        assert forall|x: usize| #[trigger] p.contains(x) == (q.contains(x) || x == last) by {
            if p.contains(x) {
                let k = choose|k: int| 0 <= k < p.len() && p[k] == x;
                if k < q.len() {
                    assert(q[k] == x);
                }
            }
            if q.contains(x) {
                let k = choose|k: int| 0 <= k < q.len() && q[k] == x;
                assert(p[k] == x);
            }
            if x == last {
                assert(p[p.len() - 1] == x);
            }
        }
        assert(!q.contains(last)) by {
            if q.contains(last) {
                let k = choose|k: int| 0 <= k < q.len() && q[k] == last;
                assert(p[k] < p[p.len() - 1]);
            }
        }
        lemma_count_in_extend(p, q, last, n);
    }
}

proof fn lemma_count_empty(p: Seq<usize>, m: int)
    requires
        p.len() == 0,
    ensures
        count_in(p, m) == 0,
    decreases m,
{
    if m > 0 {
        lemma_count_empty(p, m - 1);
    }
}

proof fn lemma_surviving_prefix_len<F: Field>(
    points: Seq<F>,
    multipliers: Seq<F>,
    message: Seq<F>,
    p: Seq<usize>,
    m: int,
    m2: int,
)
    requires
        0 <= m <= m2,
    ensures
        surviving_evaluations(message, points, multipliers, p, m).len() <= surviving_evaluations(
            message,
            points,
            multipliers,
            p,
            m2,
        ).len(),
    decreases m2,
{
    if m < m2 {
        lemma_surviving_prefix_len(points, multipliers, message, p, m, m2 - 1);
    }
}

proof fn lemma_same_length(input: Seq<usize>, sorted: Seq<usize>, length: usize)
    requires
        strictly_increasing(sorted),
        !has_duplicate_below(input, length),
        !has_out_of_range(input, length),
        forall|v: usize| #[trigger] sorted.contains(v) == input.contains(v),
    ensures
        input.len() == sorted.len(),
{
    assert(input.no_duplicates()) by {
        assert forall|i: int, j: int| 0 <= i < input.len() && 0 <= j < input.len() && i != j implies input[i]
            != input[j] by {
            if input[i] == input[j] {
                if i < j {
                    assert(occurs_twice(input, input[i]));
                } else {
                    assert(occurs_twice(input, input[i]));
                }
                assert(input[i] < length);
            }
        }
    }
    assert(sorted.no_duplicates());
    assert(input.to_set() =~= sorted.to_set());
    input.unique_seq_to_set();
    sorted.unique_seq_to_set();
}

proof fn lemma_no_set_error(sorted: Seq<usize>, length: usize)
    requires
        strictly_increasing(sorted),
        forall|i: int| 0 <= i < sorted.len() ==> sorted[i] < length,
    ensures
        puncture_set_error(sorted, length) is None,
{
    assert(!has_duplicate_below(sorted, length)) by {
        if has_duplicate_below(sorted, length) {
            let v = choose|v: usize| v < length && occurs_twice(sorted, v);
            let (i, j) = choose|i: int, j: int|
                0 <= i < j < sorted.len() && #[trigger] sorted[i] == v && #[trigger] sorted[j] == v;
            assert(sorted[i] < sorted[j]);
        }
    }
}

/// How pushing one value changes which values occur, and which occur twice.
proof fn lemma_push_occurrences(before: Seq<usize>, value: usize)
    ensures
        forall|w: usize| #[trigger] occurs_twice(before.push(value), w) ==> occurs_twice(before, w) || (w
            == value && before.contains(value)),
        forall|w: usize| occurs_twice(before, w) ==> #[trigger] occurs_twice(before.push(value), w),
        forall|w: usize| #[trigger] before.push(value).contains(w) == (before.contains(w) || w == value),
{
    let after = before.push(value);
    assert forall|w: usize| #[trigger] occurs_twice(after, w) implies occurs_twice(before, w) || (w == value
        && before.contains(value)) by {
        let (a, b) = choose|a: int, b: int|
            0 <= a < b < after.len() && #[trigger] after[a] == w && #[trigger] after[b] == w;
        if b < before.len() {
            assert(before[a] == w && before[b] == w);
        } else {
            assert(before[a] == w);
        }
    }
    assert forall|w: usize| occurs_twice(before, w) implies #[trigger] occurs_twice(after, w) by {
        let (a, b) = choose|a: int, b: int|
            0 <= a < b < before.len() && #[trigger] before[a] == w && #[trigger] before[b] == w;
        assert(after[a] == w && after[b] == w);
    }
    assert forall|w: usize| #[trigger] after.contains(w) == (before.contains(w) || w == value) by {
        if after.contains(w) {
            let k = choose|k: int| 0 <= k < after.len() && after[k] == w;
            if k < before.len() {
                assert(before[k] == w);
            }
        }
        if before.contains(w) {
            let k = choose|k: int| 0 <= k < before.len() && before[k] == w;
            assert(after[k] == w);
        }
        if w == value {
            assert(after[before.len() as int] == w);
        }
    }
}

/// Validate a puncture set against a base length and return it ascending
/// without repeats.
#[verifier::spinoff_prover]
#[verifier::rlimit(40)]
fn sorted_puncture_set(punctures: &[usize], length: usize) -> (r: Result<Vec<usize>, Error>)
    ensures
        r is Ok <==> puncture_set_error(punctures@, length) is None,
        r matches Err(e) ==> puncture_set_error(punctures@, length) == Some(e),
        r matches Ok(sorted) ==> {
            &&& strictly_increasing(sorted@)
            &&& forall|i: int| 0 <= i < sorted@.len() ==> sorted@[i] < length
            &&& forall|v: usize| #[trigger] sorted@.contains(v) == punctures@.contains(v)
            &&& !has_duplicate_below(punctures@, length)
            &&& !has_out_of_range(punctures@, length)
        },
{
    let ghost s = punctures@;
    let mut seen: Vec<bool> = Vec::with_capacity(length);
    while seen.len() < length
        invariant
            seen@.len() <= length,
            forall|v: int| 0 <= v < seen@.len() ==> !#[trigger] seen@[v],
        decreases length - seen@.len(),
    {
        seen.push(false);
    }
    let mut duplicate: Option<usize> = None;
    let mut outside: Option<usize> = None;
    let mut i: usize = 0;
    while i < punctures.len()
        invariant
            s == punctures@,
            i <= s.len(),
            seen@.len() == length,
            forall|v: int| 0 <= v < length ==> #[trigger] seen@[v] == s.subrange(0, i as int).contains(v as usize),
            duplicate matches Some(v) ==> v < length && occurs_twice(s.subrange(0, i as int), v),
            forall|w: usize|
                w < length && occurs_twice(s.subrange(0, i as int), w) ==> (duplicate matches Some(v) && v <= w),
            outside matches Some(v) ==> s.subrange(0, i as int).contains(v) && v >= length,
            forall|w: usize|
                s.subrange(0, i as int).contains(w) && w >= length ==> (outside matches Some(v) && v <= w),
        decreases s.len() - i,
    {
        let value = punctures[i];
        let ghost before = s.subrange(0, i as int);
        let ghost after = s.subrange(0, i as int + 1);
        proof {
            assert(after == before.push(value));
            lemma_push_occurrences(before, value);
        }
        if value < length {
            if seen[value] {
                proof {
                    let k = choose|k: int| 0 <= k < before.len() && before[k] == value;
                    assert(after[k] == value && after[i as int] == value);
                    assert(occurs_twice(after, value));
                }
                let replace = match duplicate {
                    None => true,
                    Some(v) => value < v,
                };
                if replace {
                    duplicate = Some(value);
                }
            } else {
                seen.set(value, true);
            }
        } else {
            let replace = match outside {
                None => true,
                Some(v) => value < v,
            };
            if replace {
                outside = Some(value);
            }
        }
        i += 1;
    }
    proof {
        assert(s.subrange(0, s.len() as int) == s);
    }
    if let Some(v) = duplicate {
        proof {
            let c = choose|c: usize|
                c < length && occurs_twice(s, c) && forall|w: usize|
                    w < length && occurs_twice(s, w) ==> c <= w;
            assert(has_duplicate_below(s, length));
            assert(c <= v && v <= c);
        }
        return Err(Error::DuplicatePuncture { index: v });
    }
    if let Some(v) = outside {
        proof {
            assert(!has_duplicate_below(s, length));
            assert(has_out_of_range(s, length)) by {
                let k = choose|k: int| 0 <= k < s.len() && s[k] == v;
            }
            let c = choose|c: usize|
                s.contains(c) && c >= length && forall|w: usize| s.contains(w) && w >= length ==> c <= w;
            assert(c <= v && v <= c);
        }
        return Err(Error::PunctureIndex { index: v, length });
    }
    proof {
        assert(!has_duplicate_below(s, length));
        assert(!has_out_of_range(s, length)) by {
            if has_out_of_range(s, length) {
                let k = choose|k: int| 0 <= k < s.len() && s[k] >= length;
                assert(s.contains(s[k]));
            }
        }
    }
    let mut sorted: Vec<usize> = Vec::new();
    let mut v: usize = 0;
    while v < length
        invariant
            seen@.len() == length,
            forall|x: int| 0 <= x < length ==> #[trigger] seen@[x] == s.contains(x as usize),
            !has_out_of_range(s, length),
            v <= length,
            strictly_increasing(sorted@),
            forall|k: int| 0 <= k < sorted@.len() ==> sorted@[k] < v,
            forall|x: usize| #[trigger] sorted@.contains(x) == (x < v && s.contains(x)),
        decreases length - v,
    {
        let ghost before = sorted@;
        if seen[v] {
            sorted.push(v);
            proof {
                assert(sorted@ == before.push(v));
                assert forall|x: usize| #[trigger] sorted@.contains(x) == (x < v + 1 && s.contains(x)) by {
                    if sorted@.contains(x) && x != v {
                        let k = choose|k: int| 0 <= k < sorted@.len() && sorted@[k] == x;
                        assert(k < before.len());
                        assert(before[k] == x);
                        assert(before.contains(x));
                    }
                    if x < v && s.contains(x) {
                        assert(before.contains(x));
                        let k = choose|k: int| 0 <= k < before.len() && before[k] == x;
                        assert(sorted@[k] == x);
                    }
                    if x == v {
                        assert(sorted@[before.len() as int] == v);
                    }
                }
            }
        } else {
            proof {
                assert forall|x: usize| #[trigger] sorted@.contains(x) == (x < v + 1 && s.contains(x)) by {
                    if x == v && s.contains(x) {
                        assert(seen@[v as int]);
                    }
                }
            }
        }
        v += 1;
    }
    proof {
        assert forall|x: usize| #[trigger] sorted@.contains(x) == s.contains(x) by {
            if s.contains(x) && x >= length {
                let k = choose|k: int| 0 <= k < s.len() && s[k] == x;
            }
        }
    }
    Ok(sorted)
}

/// The punctured decoder's own logic: the surviving subdomain and inverse
/// multipliers the ambient decoder runs on, and the message extraction from
/// its candidates.
pub struct PuncturedGrsDecoder<F: Field> {
    surviving_points: Vec<F>,
    inverse_multipliers: Vec<F>,
    dimension: usize,
    length: usize,
    target_radius: usize,
    multipliers: Ghost<Seq<F>>,
}

impl<F: Field> PuncturedGrsDecoder<F> {
    pub closed spec fn surviving_points_view(&self) -> Seq<F> {
        self.surviving_points@
    }

    pub closed spec fn surviving_multipliers_view(&self) -> Seq<F> {
        self.multipliers@
    }

    pub closed spec fn dimension_view(&self) -> usize {
        self.dimension
    }

    pub closed spec fn target_radius_view(&self) -> usize {
        self.target_radius
    }

    pub closed spec fn wf(&self) -> bool {
        &&& F::field_valid()
        &&& self.length == self.surviving_points@.len()
        &&& self.multipliers@.len() == self.length
        &&& self.inverse_multipliers@.len() == self.length
        &&& seq_wf(self.inverse_multipliers@)
        &&& forall|i: int|
            0 <= i < self.length ==> Some(#[trigger] self.inverse_multipliers@[i])
                == self.multipliers@[i].inverse_spec()
    }

    /// Build the decoder data: the surviving points and their inverse
    /// multipliers, in ascending coordinate order.
    pub fn new(code: &PuncturedGrsCode<F>, target_radius: usize) -> (r: Self)
        requires
            code.wf(),
        ensures
            r.wf(),
            r.surviving_points_view() == surviving(
                code.points_view(),
                code.punctures_view(),
                code.points_view().len() as int,
            ),
            r.surviving_multipliers_view() == surviving(
                code.multipliers_view(),
                code.punctures_view(),
                code.points_view().len() as int,
            ),
            r.dimension_view() == code.dimension_view(),
            r.target_radius_view() == target_radius,
    {
        let points = code.domain.points();
        let n = points.len();
        let multipliers = code.multipliers.as_slice();
        proof {
            lemma_first_zero(multipliers@, 0);
        }
        let mut surviving_points: Vec<F> = Vec::new();
        let mut inverse_multipliers: Vec<F> = Vec::new();
        let ghost mut kept: Seq<F> = Seq::empty();
        let mut i: usize = 0;
        while i < n
            invariant
                code.wf(),
                points@ == code.points_view(),
                multipliers@ == code.multipliers_view(),
                n == points@.len(),
                n == multipliers@.len(),
                all_nonzero(multipliers@),
                i <= n,
                surviving_points@ == surviving(points@, code.punctures_view(), i as int),
                kept == surviving(multipliers@, code.punctures_view(), i as int),
                surviving_points@.len() == kept.len(),
                inverse_multipliers@.len() == kept.len(),
                seq_wf(inverse_multipliers@),
                forall|j: int|
                    0 <= j < kept.len() ==> Some(#[trigger] inverse_multipliers@[j])
                        == kept[j].inverse_spec(),
            decreases n - i,
        {
            if !contains_index(code.punctures.as_slice(), i) {
                proof {
                    assert(multipliers@[i as int].wf());
                    assert(multipliers@[i as int] != F::zero_spec());
                }
                surviving_points.push(points[i]);
                inverse_multipliers.push(multipliers[i].inverse().unwrap());
                proof {
                    kept = kept.push(multipliers@[i as int]);
                }
            }
            i += 1;
        }
        let length = surviving_points.len();
        PuncturedGrsDecoder {
            surviving_points,
            inverse_multipliers,
            dimension: code.dimension,
            length,
            target_radius,
            multipliers: Ghost(kept),
        }
    }

    /// The surviving evaluation points, the subdomain the ambient decoder
    /// runs on.
    pub fn surviving_points(&self) -> (r: &[F])
        ensures
            r@ == self.surviving_points_view(),
    {
        self.surviving_points.as_slice()
    }

    /// The decoding radius this decoder was built for.
    pub fn target_radius(&self) -> (r: usize)
        ensures
            r == self.target_radius_view(),
    {
        self.target_radius
    }

    /// Message dimension `k`.
    pub fn dimension(&self) -> (r: usize)
        ensures
            r == self.dimension_view(),
    {
        self.dimension
    }

    /// Punctured code length `n - |S|`.
    pub fn length(&self) -> (r: usize)
        requires
            self.wf(),
        ensures
            r == self.surviving_points_view().len(),
    {
        self.length
    }

    /// Normalize a received word by the inverse surviving multipliers.
    pub fn normalize(&self, received: &[F]) -> (r: Result<Vec<F>, Error>)
        requires
            self.wf(),
            seq_wf(received@),
        ensures
            r is Err <==> received@.len() != self.surviving_points_view().len(),
            r is Err ==> r == Err::<Vec<F>, Error>(
                Error::ReceivedLength {
                    expected: self.surviving_points_view().len() as usize,
                    got: received@.len() as usize,
                },
            ),
            r matches Ok(v) ==> v@.len() == received@.len() && seq_wf(v@) && forall|i: int|
                0 <= i < v@.len() ==> #[trigger] v@[i] == received@[i].mul_spec(
                    self.surviving_multipliers_view()[i].inverse_spec().unwrap(),
                ),
    {
        if received.len() != self.length {
            return Err(Error::ReceivedLength { expected: self.length, got: received.len() });
        }
        let mut normalized: Vec<F> = Vec::with_capacity(self.length);
        let mut i: usize = 0;
        while i < self.length
            invariant
                self.wf(),
                seq_wf(received@),
                self.length == received@.len(),
                i <= self.length,
                normalized@.len() == i,
                seq_wf(normalized@),
                forall|j: int|
                    0 <= j < i ==> #[trigger] normalized@[j] == received@[j].mul_spec(
                        self.surviving_multipliers_view()[j].inverse_spec().unwrap(),
                    ),
            decreases self.length - i,
        {
            proof {
                assert(Some(self.inverse_multipliers@[i as int]) == self.multipliers@[i as int].inverse_spec());
            }
            normalized.push(received[i].mul(self.inverse_multipliers[i]));
            i += 1;
        }
        Ok(normalized)
    }

    /// The degree-`< k` message of every ambient candidate, in order.
    pub fn list_decode_into(
        &self,
        ambient: &[Polynomial<F>],
        output: &mut Vec<Polynomial<F>>,
    ) -> (count: usize)
        requires
            forall|i: int| 0 <= i < ambient@.len() ==> (#[trigger] ambient@[i]).wf(),
        ensures
            final(output)@.len() == ambient@.len(),
            count == ambient@.len(),
            forall|i: int|
                0 <= i < ambient@.len() ==> (#[trigger] final(output)@[i])@ == low_part(
                    ambient@[i]@,
                    self.dimension_view() as nat,
                ) && final(output)@[i].wf(),
    {
        low_parts_into(ambient, self.dimension, output)
    }

    /// Uniquely decode from the ambient candidates.
    pub fn unique_decode(&self, ambient: &[Polynomial<F>]) -> (r: UniqueDecode<F>)
        requires
            forall|i: int| 0 <= i < ambient@.len() ==> (#[trigger] ambient@[i]).wf(),
        ensures
            ambient@.len() == 0 ==> r is NoCandidate,
            ambient@.len() == 1 ==> (r matches UniqueDecode::Message(m) && m@ == low_part(
                ambient@[0]@,
                self.dimension_view() as nat,
            )),
            ambient@.len() > 1 ==> r is Ambiguous,
    {
        let mut filtered: Vec<Polynomial<F>> = Vec::new();
        self.list_decode_into(ambient, &mut filtered);
        UniqueDecode::from_list(filtered)
    }
}

/// Write the degree-`< dimension` part of every candidate into `output`.
pub fn low_parts_into<F: Field>(
    ambient: &[Polynomial<F>],
    dimension: usize,
    output: &mut Vec<Polynomial<F>>,
) -> (count: usize)
    requires
        forall|i: int| 0 <= i < ambient@.len() ==> (#[trigger] ambient@[i]).wf(),
    ensures
        final(output)@.len() == ambient@.len(),
        count == ambient@.len(),
        forall|i: int|
            0 <= i < ambient@.len() ==> (#[trigger] final(output)@[i])@ == low_part(
                ambient@[i]@,
                dimension as nat,
            ) && final(output)@[i].wf(),
{
    output.clear();
    let mut index: usize = 0;
    while index < ambient.len()
        invariant
            forall|i: int| 0 <= i < ambient@.len() ==> (#[trigger] ambient@[i]).wf(),
            index <= ambient@.len(),
            output@.len() == index,
            forall|i: int|
                0 <= i < index ==> (#[trigger] output@[i])@ == low_part(ambient@[i]@, dimension as nat)
                    && output@[i].wf(),
        decreases ambient@.len() - index,
    {
        let message = low_degree_part(&ambient[index], dimension);
        output.push(message);
        index += 1;
    }
    output.len()
}

} // verus!

verus! {

pub proof fn lemma_surviving_len_pub<F>(s: Seq<F>, p: Seq<usize>, m: int)
    requires
        0 <= m,
    ensures
        surviving(s, p, m).len() + count_in(p, m) == m,
    decreases m,
{
    if m > 0 {
        lemma_surviving_len_pub(s, p, m - 1);
    }
}

pub proof fn lemma_surviving_prefix_len_pub<F>(s: Seq<F>, p: Seq<usize>, m: int, m2: int)
    requires
        0 <= m <= m2,
    ensures
        surviving(s, p, m).len() <= surviving(s, p, m2).len(),
    decreases m2,
{
    if m < m2 {
        lemma_surviving_prefix_len_pub(s, p, m, m2 - 1);
    }
}

} // verus!
