//! The twisted generalized Reed–Solomon code and its encoder.
use vstd::prelude::*;

use crate::domain::EvaluationDomain;
use crate::error::Error;
use crate::eval::horner;
use crate::field::Field;
use crate::polynomial::{eval_seq, seq_wf};
use crate::twist::Twist;
use crate::validate::{base_error, validate_base, all_nonzero, lemma_first_zero};

verus! {

/// The largest offset among the first `m` twists, or zero.
pub open spec fn max_offset<F: Field>(twists: Seq<Twist<F>>, m: int) -> nat
    decreases m,
{
    if m <= 0 {
        0
    } else {
        let previous = max_offset(twists, m - 1);
        if twists[m - 1].offset > previous {
            twists[m - 1].offset as nat
        } else {
            previous
        }
    }
}

/// The pseudo-dimension `k' = k + max_j t_j` (`k` without twists).
pub open spec fn pseudo_dimension_spec<F: Field>(dimension: nat, twists: Seq<Twist<F>>) -> nat {
    dimension + max_offset(twists, twists.len() as int)
}

/// The error a single twist raises against a code of dimension `k` and length
/// `n`: offset outside `1..=n-k`, hook not below `k`, or a zero coefficient.
pub open spec fn twist_error<F: Field>(twist: Twist<F>, index: usize, k: usize, n: usize) -> Option<
    Error,
> {
    let max = (n - k) as usize;
    if twist.offset < 1 || twist.offset > max {
        Some(Error::TwistOffset { offset: twist.offset, max })
    } else if twist.hook >= k {
        Some(Error::TwistHook { hook: twist.hook, dimension: k })
    } else if twist.coefficient == F::zero_spec() {
        Some(Error::ZeroTwistCoefficient { index })
    } else {
        None
    }
}

/// The first twist error at or after position `from`.
pub open spec fn twists_error_from<F: Field>(
    twists: Seq<Twist<F>>,
    k: usize,
    n: usize,
    from: int,
) -> Option<Error>
    decreases twists.len() - from,
{
    if from < 0 || from >= twists.len() {
        None
    } else {
        match twist_error(twists[from], from as usize, k, n) {
            Some(e) => Some(e),
            None => twists_error_from(twists, k, n, from + 1),
        }
    }
}

/// Two distinct twists share the pair `(offset, hook)`.
pub open spec fn pair_repeated<F: Field>(twists: Seq<Twist<F>>, offset: usize, hook: usize) -> bool {
    exists|i: int, j: int|
        0 <= i < j < twists.len() && #[trigger] twists[i].offset == offset && twists[i].hook
            == hook && #[trigger] twists[j].offset == offset && twists[j].hook == hook
}

/// Lexicographic order on `(offset, hook)` pairs.
pub open spec fn pair_le(o1: usize, h1: usize, o2: usize, h2: usize) -> bool {
    o1 < o2 || (o1 == o2 && h1 <= h2)
}

/// Some pair is repeated.
pub open spec fn has_repeated_pair<F: Field>(twists: Seq<Twist<F>>) -> bool {
    exists|o: usize, h: usize| pair_repeated(twists, o, h)
}

/// The lexicographically smallest repeated pair.
pub open spec fn smallest_repeated_pair<F: Field>(twists: Seq<Twist<F>>) -> (usize, usize) {
    choose|p: (usize, usize)|
        pair_repeated(twists, p.0, p.1) && forall|o: usize, h: usize|
            pair_repeated(twists, o, h) ==> pair_le(p.0, p.1, o, h)
}

/// The first construction error of a twisted GRS code, in the order the
/// checks run: base shape, then each twist in turn, then repeated pairs.
pub open spec fn tgrs_error<F: Field>(
    length: usize,
    multipliers: Seq<F>,
    dimension: usize,
    twists: Seq<Twist<F>>,
) -> Option<Error> {
    match base_error(multipliers, dimension, length) {
        Some(e) => Some(e),
        None => match twists_error_from(twists, dimension, length, 0) {
            Some(e) => Some(e),
            None => if has_repeated_pair(twists) {
                let p = smallest_repeated_pair(twists);
                Some(Error::DuplicateTwist { offset: p.0, hook: p.1 })
            } else {
                None
            },
        },
    }
}

/// The twisted coefficient vector of length `k'` after applying the first `m`
/// twists: the message, zero-padded, plus `η · f_h` at degree `k - 1 + t`.
pub open spec fn twisted_coefficients<F: Field>(
    message: Seq<F>,
    pseudo_dimension: nat,
    twists: Seq<Twist<F>>,
    m: int,
) -> Seq<F>
    decreases m,
{
    if m <= 0 {
        Seq::new(
            pseudo_dimension,
            |i: int|
                if i < message.len() {
                    message[i]
                } else {
                    F::zero_spec()
                },
        )
    } else {
        let previous = twisted_coefficients(message, pseudo_dimension, twists, m - 1);
        let t = twists[m - 1];
        let destination = message.len() - 1 + t.offset;
        previous.update(
            destination,
            previous[destination].add_spec(t.coefficient.mul_spec(message[t.hook as int])),
        )
    }
}

/// `(v_i · f(α_i))_i` for the coefficient sequence `f`.
pub open spec fn evaluations<F: Field>(coefficients: Seq<F>, points: Seq<F>, multipliers: Seq<F>) -> Seq<F> {
    Seq::new(points.len(), |i: int| multipliers[i].mul_spec(eval_seq(coefficients, points[i])))
}

/// Every twist coefficient is canonical.
pub open spec fn twists_wf<F: Field>(twists: Seq<Twist<F>>) -> bool {
    forall|i: int| 0 <= i < twists.len() ==> (#[trigger] twists[i]).coefficient.wf()
}

pub proof fn lemma_twists_valid<F: Field>(twists: Seq<Twist<F>>, k: usize, n: usize, from: int)
    requires
        0 <= from <= twists.len(),
        twists_error_from(twists, k, n, from) is None,
    ensures
        forall|i: int| from <= i < twists.len() ==> twist_error(#[trigger] twists[i], i as usize, k, n) is None,
    decreases twists.len() - from,
{
    if from < twists.len() {
        lemma_twists_valid(twists, k, n, from + 1);
    }
}

pub proof fn lemma_max_offset<F: Field>(twists: Seq<Twist<F>>, m: int)
    requires
        0 <= m <= twists.len(),
    ensures
        forall|i: int| 0 <= i < m ==> (#[trigger] twists[i]).offset <= max_offset(twists, m),
        m > 0 ==> exists|i: int| 0 <= i < m && (#[trigger] twists[i]).offset == max_offset(twists, m),
    decreases m,
{
    if m > 0 {
        lemma_max_offset(twists, m - 1);
        if m > 1 && twists[m - 1].offset <= max_offset(twists, m - 1) {
            let w = choose|i: int| 0 <= i < m - 1 && (#[trigger] twists[i]).offset == max_offset(twists, m - 1);
            assert(0 <= w < m && twists[w].offset == max_offset(twists, m));
        } else {
            assert(twists[m - 1].offset == max_offset(twists, m) || max_offset(twists, m - 1) == 0);
            if twists[m - 1].offset > max_offset(twists, m - 1) {
                assert(twists[m - 1].offset == max_offset(twists, m));
            } else {
                assert(max_offset(twists, m - 1) == 0);
                assert(twists[m - 1].offset == 0);
                assert(twists[m - 1].offset == max_offset(twists, m));
            }
        }
    }
}

/// The smallest repeated pair, or `None`.
fn find_smallest_repeated_pair<F: Field>(twists: &[Twist<F>]) -> (r: Option<(usize, usize)>)
    ensures
        r is None <==> !has_repeated_pair(twists@),
        r matches Some(p) ==> p == smallest_repeated_pair(twists@),
{
    let ghost s = twists@;
    let n = twists.len();
    let mut best: Option<(usize, usize)> = None;
    let mut i: usize = 0;
    while i < n
        invariant
            n == s.len(),
            s == twists@,
            i <= n,
            best matches Some(p) ==> pair_repeated(s, p.0, p.1),
            forall|a: int, b: int|
                #![trigger s[a], s[b]]
                0 <= a < b < n && a < i && s[a].offset == s[b].offset && s[a].hook
                    == s[b].hook ==> (best matches Some(p) && pair_le(
                    p.0,
                    p.1,
                    s[a].offset,
                    s[a].hook,
                )),
        decreases n - i,
    {
        let mut j: usize = i + 1;
        while j < n
            invariant
                n == s.len(),
                s == twists@,
                i < n,
                i + 1 <= j <= n,
                best matches Some(p) ==> pair_repeated(s, p.0, p.1),
                forall|a: int, b: int|
                    #![trigger s[a], s[b]]
                    0 <= a < b < n && (a < i || (a == i && b < j)) && s[a].offset
                        == s[b].offset && s[a].hook == s[b].hook ==> (best matches Some(p)
                        && pair_le(p.0, p.1, s[a].offset, s[a].hook)),
            decreases n - j,
        {
            let offset = twists[i].offset;
            let hook = twists[i].hook;
            if offset == twists[j].offset && hook == twists[j].hook {
                proof {
                    assert(pair_repeated(s, offset, hook)) by {
                        assert(0 <= i < j < s.len() && s[i as int].offset == offset && s[i as int].hook
                            == hook && s[j as int].offset == offset && s[j as int].hook == hook);
                    }
                }
                let replace = match best {
                    None => true,
                    Some(p) => offset < p.0 || (offset == p.0 && hook < p.1),
                };
                if replace {
                    best = Some((offset, hook));
                }
            }
            j += 1;
        }
        i += 1;
    }
    proof {
        if has_repeated_pair(s) {
            let (o, h) = choose|o: usize, h: usize| pair_repeated(s, o, h);
            let (a, b) = choose|a: int, b: int|
                0 <= a < b < s.len() && #[trigger] s[a].offset == o && s[a].hook == h
                    && #[trigger] s[b].offset == o && s[b].hook == h;
            assert(s[a].offset == s[b].offset && s[a].hook == s[b].hook);
            assert(best is Some);
        }
        if let Some(p) = best {
            assert(has_repeated_pair(s));
            assert forall|o: usize, h: usize| pair_repeated(s, o, h) implies pair_le(p.0, p.1, o, h) by {
                let (a, b) = choose|a: int, b: int|
                    0 <= a < b < s.len() && #[trigger] s[a].offset == o && s[a].hook == h
                        && #[trigger] s[b].offset == o && s[b].hook == h;
                assert(s[a].offset == s[b].offset && s[a].hook == s[b].hook);
            }
            let q = smallest_repeated_pair(s);
            assert(pair_repeated(s, q.0, q.1) && forall|o: usize, h: usize|
                pair_repeated(s, o, h) ==> pair_le(q.0, q.1, o, h));
            assert(pair_le(p.0, p.1, q.0, q.1));
            assert(pair_le(q.0, q.1, p.0, p.1));
        }
    }
    best
}

/// A twisted generalized Reed–Solomon code `C_TGRS(α, v, k, T)`.
///
/// A message `(f_0, …, f_{k-1})` is mapped to the polynomial
/// `∑ f_i x^i + ∑_j η_j f_{h_j} x^{k-1+t_j}` and then to the codeword
/// `(v_i · f(α_i))_i`. The code is a subcode of the ambient `[n, k']` GRS
/// code, where the *pseudo-dimension* `k' = k + max_j t_j` is the number of
/// monomials the twisted polynomials span.
#[derive(Debug)]
pub struct TgrsCode<F: Field> {
    pub(crate) domain: EvaluationDomain<F>,
    pub(crate) multipliers: Vec<F>,
    pub(crate) dimension: usize,
    pub(crate) pseudo_dimension: usize,
    pub(crate) twists: Vec<Twist<F>>,
}

impl<F: Field> TgrsCode<F> {
    pub closed spec fn points_view(&self) -> Seq<F> {
        self.domain@
    }

    pub closed spec fn multipliers_view(&self) -> Seq<F> {
        self.multipliers@
    }

    pub closed spec fn dimension_view(&self) -> usize {
        self.dimension
    }

    pub closed spec fn pseudo_dimension_view(&self) -> usize {
        self.pseudo_dimension
    }

    pub closed spec fn twists_view(&self) -> Seq<Twist<F>> {
        self.twists@
    }

    /// A validated code: every construction check passes.
    pub open spec fn wf(&self) -> bool {
        &&& F::field_valid()
        &&& self.points_view().len() > 0
        &&& self.points_view().len() <= usize::MAX
        &&& seq_wf(self.points_view())
        &&& crate::domain::distinct(self.points_view())
        &&& seq_wf(self.multipliers_view())
        &&& twists_wf(self.twists_view())
        &&& tgrs_error(
            self.points_view().len() as usize,
            self.multipliers_view(),
            self.dimension_view(),
            self.twists_view(),
        ) is None
        &&& self.pseudo_dimension_view() == pseudo_dimension_spec(
            self.dimension_view() as nat,
            self.twists_view(),
        )
    }

    /// The codeword of a `k`-symbol message.
    pub open spec fn codeword_spec(&self, message: Seq<F>) -> Seq<F> {
        evaluations(
            twisted_coefficients(
                message,
                self.pseudo_dimension_view() as nat,
                self.twists_view(),
                self.twists_view().len() as int,
            ),
            self.points_view(),
            self.multipliers_view(),
        )
    }

    /// Build a twisted GRS code over an evaluation domain and nonzero column
    /// multipliers.
    ///
    /// `dimension` is the message dimension `k` and must satisfy `1 <= k < n`.
    /// Each twist must satisfy `1 <= t <= n-k`, `0 <= h < k`, `η != 0`, and the
    /// `(t, h)` pairs must be distinct. An empty twist set yields the ordinary
    /// GRS code.
    pub fn new(
        domain: EvaluationDomain<F>,
        multipliers: Vec<F>,
        dimension: usize,
        twists: Vec<Twist<F>>,
    ) -> (r: Result<Self, Error>)
        requires
            domain.wf(),
            seq_wf(multipliers@),
            twists_wf(twists@),
        ensures
            r is Ok <==> tgrs_error(domain@.len() as usize, multipliers@, dimension, twists@) is None,
            r matches Err(e) ==> tgrs_error(domain@.len() as usize, multipliers@, dimension, twists@)
                == Some(e),
            r matches Ok(code) ==> {
                &&& code.wf()
                &&& code.points_view() == domain@
                &&& code.multipliers_view() == multipliers@
                &&& code.dimension_view() == dimension
                &&& code.twists_view() == twists@
            },
    {
        let length = domain.len();
        match validate_base(multipliers.as_slice(), dimension, length) {
            Ok(()) => {},
            Err(e) => {
                return Err(e);
            },
        }
        let max_offset_allowed = length - dimension;
        let mut pseudo_dimension = dimension;
        let mut index: usize = 0;
        while index < twists.len()
            invariant
                0 < dimension < length,
                length == domain@.len(),
                base_error(multipliers@, dimension, length) is None,
                max_offset_allowed == length - dimension,
                index <= twists@.len(),
                twists_error_from(twists@, dimension, length, 0) == twists_error_from(
                    twists@,
                    dimension,
                    length,
                    index as int,
                ),
                pseudo_dimension == dimension + max_offset(twists@, index as int),
                pseudo_dimension <= length,
                twists_wf(twists@),
            decreases twists@.len() - index,
        {
            let twist = twists[index];
            if twist.offset < 1 || twist.offset > max_offset_allowed {
                return Err(Error::TwistOffset { offset: twist.offset, max: max_offset_allowed });
            }
            if twist.hook >= dimension {
                return Err(Error::TwistHook { hook: twist.hook, dimension });
            }
            if twist.coefficient.is_zero() {
                return Err(Error::ZeroTwistCoefficient { index });
            }
            if dimension + twist.offset > pseudo_dimension {
                pseudo_dimension = dimension + twist.offset;
            }
            index += 1;
        }
        match find_smallest_repeated_pair(twists.as_slice()) {
            Some((offset, hook)) => {
                return Err(Error::DuplicateTwist { offset, hook });
            },
            None => {},
        }
        Ok(TgrsCode { domain, multipliers, dimension, pseudo_dimension, twists })
    }

    /// Code length `n`.
    pub fn length(&self) -> (r: usize)
        ensures
            r == self.points_view().len(),
    {
        self.domain.len()
    }

    /// Message dimension `k`.
    pub fn dimension(&self) -> (r: usize)
        ensures
            r == self.dimension_view(),
    {
        self.dimension
    }

    /// Pseudo-dimension `k' = k + max_j t_j` (equal to `k` without twists).
    pub fn pseudo_dimension(&self) -> (r: usize)
        ensures
            r == self.pseudo_dimension_view(),
    {
        self.pseudo_dimension
    }

    /// The twist set `T`.
    pub fn twists(&self) -> (r: &[Twist<F>])
        ensures
            r@ == self.twists_view(),
    {
        self.twists.as_slice()
    }

    /// The evaluation domain `α`.
    pub fn domain(&self) -> (r: &EvaluationDomain<F>)
        ensures
            r@ == self.points_view(),
    {
        &self.domain
    }

    /// The column multipliers `v`.
    pub fn multipliers(&self) -> (r: &[F])
        ensures
            r@ == self.multipliers_view(),
    {
        self.multipliers.as_slice()
    }

    /// Encode a `k`-symbol message into an `n`-symbol codeword.
    ///
    /// `message` must have exactly `k` symbols and `codeword` exactly `n`.
    pub fn encode_into(&self, message: &[F], codeword: &mut [F]) -> (r: Result<(), Error>)
        requires
            self.wf(),
            seq_wf(message@),
        ensures
            message@.len() != self.dimension_view() ==> r == Err::<(), Error>(
                Error::MessageLength {
                    expected: self.dimension_view(),
                    got: message@.len() as usize,
                },
            ),
            message@.len() == self.dimension_view() && old(codeword)@.len() != self.points_view().len()
                ==> r == Err::<(), Error>(
                Error::CodewordLength {
                    expected: self.points_view().len() as usize,
                    got: old(codeword)@.len() as usize,
                },
            ),
            r is Err ==> final(codeword)@ == old(codeword)@,
            r is Ok <==> message@.len() == self.dimension_view() && old(codeword)@.len()
                == self.points_view().len(),
            r is Ok ==> final(codeword)@ == self.codeword_spec(message@),
    {
        let dimension = self.dimension;
        let length = self.domain.len();
        if message.len() != dimension {
            return Err(Error::MessageLength { expected: dimension, got: message.len() });
        }
        if codeword.len() != length {
            return Err(Error::CodewordLength { expected: length, got: codeword.len() });
        }
        let ghost twists = self.twists@;
        let ghost kp = self.pseudo_dimension as nat;
        proof {
            lemma_twists_valid(twists, dimension, length, 0);
            lemma_max_offset(twists, twists.len() as int);
            lemma_first_zero(self.multipliers@, 0);
        }
        let mut coefficients: Vec<F> = Vec::with_capacity(self.pseudo_dimension);
        let mut position: usize = 0;
        while position < self.pseudo_dimension
            invariant
                self.wf(),
                message@.len() == dimension,
                dimension == self.dimension,
                kp == self.pseudo_dimension,
                position <= kp,
                coefficients@.len() == position,
                forall|i: int|
                    0 <= i < position ==> #[trigger] coefficients@[i] == (if i < message@.len() {
                        message@[i]
                    } else {
                        F::zero_spec()
                    }),
            decreases kp - position,
        {
            if position < dimension {
                coefficients.push(message[position]);
            } else {
                coefficients.push(F::zero());
            }
            position += 1;
        }
        proof {
            assert(coefficients@ =~= twisted_coefficients(message@, kp, twists, 0));
            F::lemma_closure(F::zero_spec(), F::zero_spec());
        }
        let mut index: usize = 0;
        while index < self.twists.len()
            invariant
                self.wf(),
                twists == self.twists@,
                kp == self.pseudo_dimension,
                message@.len() == dimension,
                dimension == self.dimension,
                length == self.points_view().len(),
                seq_wf(message@),
                index <= twists.len(),
                coefficients@ == twisted_coefficients(message@, kp, twists, index as int),
                coefficients@.len() == kp,
                seq_wf(coefficients@),
                forall|i: int| 0 <= i < twists.len() ==> twist_error(#[trigger] twists[i], i as usize, dimension, length) is None,
                forall|i: int| 0 <= i < twists.len() ==> (#[trigger] twists[i]).offset <= max_offset(twists, twists.len() as int),
            decreases twists.len() - index,
        {
            let twist = self.twists[index];
            proof {
                assert(twist_error(twists[index as int], index as usize, dimension, length) is None);
                assert(twists[index as int].coefficient.wf());
            }
            let destination = dimension - 1 + twist.offset;
            let contribution = twist.coefficient.mul(message[twist.hook]);
            proof {
                assert(coefficients@[destination as int].wf());
            }
            let updated = coefficients[destination].add(contribution);
            coefficients.set(destination, updated);
            index += 1;
        }
        let points = self.domain.points();
        let mut slot: usize = 0;
        while slot < length
            invariant
                self.wf(),
                points@ == self.points_view(),
                length == points@.len(),
                codeword@.len() == length,
                slot <= length,
                seq_wf(coefficients@),
                coefficients@ == twisted_coefficients(message@, kp, twists, twists.len() as int),
                twists == self.twists_view(),
                kp == self.pseudo_dimension_view(),
                forall|i: int|
                    0 <= i < slot ==> #[trigger] codeword@[i] == self.multipliers_view()[i].mul_spec(
                        eval_seq(coefficients@, points@[i]),
                    ),
            decreases length - slot,
        {
            let value = horner(coefficients.as_slice(), points[slot]);
            codeword[slot] = self.multipliers[slot].mul(value);
            slot += 1;
        }
        proof {
            assert(codeword@ =~= self.codeword_spec(message@));
        }
        Ok(())
    }

    /// The MDS unique-decoding radius `⌊(n-k)/2⌋`.
    pub fn unique_radius(&self) -> (r: usize)
        requires
            self.wf(),
        ensures
            r == (self.points_view().len() - self.dimension_view()) / 2,
    {
        (self.domain.len() - self.dimension) / 2
    }
}

} // verus!
