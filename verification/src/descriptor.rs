//! Canonical transform descriptor for the six deformation generators.
//!
//! A deformed code is specified as a base GRS code plus an ordered *word* over
//! six generators — twist, Möbius, puncture, extend, fold, interleave. The word
//! reduces to a [`CanonicalDescriptor`] by per-axis closure laws:
//!
//! - **L1 (domain position)** — Möbius maps compose as `2×2` matrices; the net
//!   map is stored scale-normalized.
//! - **L2 (domain membership)** — punctures union idempotently and a puncture on
//!   an extended coordinate removes that extension.
//! - **L3 (message space)** — twists merge by `(t, h)`: equal pairs sum their
//!   `η` and vanish at zero.
//! - **L4 (grouping)** — folds multiply, as do interleaves.
use vstd::prelude::*;

use crate::code::TgrsCode;
use crate::domain::{distinct, EvaluationDomain};
use crate::error::{DomainError, Error};
use crate::field::Field;
use crate::folded::{orbit_spec, orbit_too_short, power_seq};
use crate::mobius::{orbit_preserving_spec, MobiusMap};
use crate::polynomial::{copy_elements, seq_wf};
use crate::puncture::blocks_aligned_spec;
use crate::twist::Twist;
use crate::validate::{base_error, validate_base};
use crate::bytes::{leb128, push_u64_le, push_usize, u64_le_bytes};

verus! {

/// Serialization format version. Bumping it is a wire-format break.
pub const DESCRIPTOR_VERSION: u8 = 1;

pub const TAG_TWIST: u8 = 1;

pub const TAG_MOBIUS: u8 = 2;

pub const TAG_PUNCTURE: u8 = 3;

pub const TAG_EXTEND: u8 = 4;

pub const TAG_FOLD: u8 = 5;

pub const TAG_INTERLEAVE: u8 = 6;

/// The decode capability a descriptor can honestly offer after normalization.
#[derive(Clone, Copy, Debug, PartialEq, Eq)]
pub enum DecoderCapability {
    /// Ambient Guruswami–Sudan decoding at the given pseudo-dimension `k'`.
    AmbientGs {
        /// The pseudo-dimension `k'` the ambient decoder runs at.
        pseudo_dimension: usize,
    },
    /// Folded-list decoding: a genuine multiplicative orbit survives, the fold
    /// divides the length, no Möbius broke the orbit, and no puncture split a
    /// block.
    FoldedList {
        /// The pseudo-dimension `k'` the folded-list decoder runs at.
        pseudo_dimension: usize,
        /// The surviving fold `m`.
        fold: usize,
    },
    /// Collaborative (interleaved) decoding at the given order `ℓ`.
    Collaborative {
        /// The pseudo-dimension `k'` the collaborative decoder runs at.
        pseudo_dimension: usize,
        /// The interleaving order `ℓ`.
        order: usize,
    },
}

/// Geometry promised by the base-code identifier.
#[derive(Clone, Copy, Debug, PartialEq, Eq)]
pub enum BaseGeometry {
    /// Distinct points with no multiplicative-orbit promise.
    Arbitrary,
    /// Consecutive powers `1, γ, …, γ^{n-1}` of a validated generator.
    MultiplicativeOrbit,
}

/// An appended extension coordinate: a linear functional on the `k` message
/// coefficients, scaled by a nonzero multiplier.
#[derive(Debug)]
pub struct ExtendCoord<F: Field> {
    functional: Vec<F>,
    multiplier: F,
}

impl<F: Field> View for ExtendCoord<F> {
    type V = (Seq<F>, F);

    closed spec fn view(&self) -> (Seq<F>, F) {
        (self.functional@, self.multiplier)
    }
}

impl<F: Field> Clone for ExtendCoord<F> {
    fn clone(&self) -> (r: Self)
        ensures
            r@ == self@,
    {
        ExtendCoord { functional: copy_elements(&self.functional), multiplier: self.multiplier }
    }
}

impl<F: Field> ExtendCoord<F> {
    /// Construct an extension coordinate from its functional and multiplier.
    pub fn new(functional: Vec<F>, multiplier: F) -> (r: Self)
        ensures
            r@ == (functional@, multiplier),
    {
        ExtendCoord { functional, multiplier }
    }

    /// The linear functional's coefficient vector (length `k`).
    pub fn functional(&self) -> (r: &[F])
        ensures
            r@ == self@.0,
    {
        self.functional.as_slice()
    }

    /// The coordinate's column multiplier.
    pub fn multiplier(&self) -> (r: F)
        ensures
            r == self@.1,
    {
        self.multiplier
    }
}

/// The first error of a multiplicative-orbit base: the orbit, then the base
/// shape (the orbit points are distinct whenever the orbit is long enough in
/// a field; a repeat is reported as a domain error).
pub open spec fn orbit_base_error<F: Field>(generator: F, multipliers: Seq<F>, dimension: usize) -> Option<
    Error,
> {
    let length = multipliers.len() as usize;
    if orbit_too_short(generator, multipliers.len()) {
        Some(Error::InsufficientOrbit { length })
    } else {
        base_error(multipliers, dimension, length)
    }
}

/// The base GRS code a transform word deforms.
#[derive(Debug)]
pub struct BaseCode<F: Field> {
    id: u64,
    domain: EvaluationDomain<F>,
    multipliers: Vec<F>,
    dimension: usize,
    geometry: BaseGeometry,
}

impl<F: Field> Clone for BaseCode<F> {
    fn clone(&self) -> (r: Self)
        ensures
            r.id_view() == self.id_view(),
            r.points_view() == self.points_view(),
            r.multipliers_view() == self.multipliers_view(),
            r.dimension_view() == self.dimension_view(),
            r.geometry_view() == self.geometry_view(),
    {
        BaseCode {
            id: self.id,
            domain: self.domain.clone(),
            multipliers: copy_elements(&self.multipliers),
            dimension: self.dimension,
            geometry: self.geometry,
        }
    }
}

impl<F: Field> BaseCode<F> {
    pub closed spec fn id_view(&self) -> u64 {
        self.id
    }

    pub closed spec fn points_view(&self) -> Seq<F> {
        self.domain@
    }

    pub closed spec fn multipliers_view(&self) -> Seq<F> {
        self.multipliers@
    }

    pub closed spec fn dimension_view(&self) -> usize {
        self.dimension
    }

    pub closed spec fn geometry_view(&self) -> BaseGeometry {
        self.geometry
    }

    /// A valid base: distinct canonical points, `1 <= k < n`, nonzero
    /// canonical multipliers.
    pub open spec fn wf(&self) -> bool {
        &&& F::field_valid()
        &&& self.points_view().len() > 0
        &&& seq_wf(self.points_view())
        &&& distinct(self.points_view())
        &&& seq_wf(self.multipliers_view())
        &&& base_error(self.multipliers_view(), self.dimension_view(), self.points_view().len() as usize)
            is None
    }

    /// Construct an arbitrary-domain base code with identifier zero.
    pub fn new(domain: EvaluationDomain<F>, multipliers: Vec<F>, dimension: usize) -> (r: Result<
        Self,
        Error,
    >)
        requires
            domain.wf(),
            seq_wf(multipliers@),
        ensures
            r is Ok <==> base_error(multipliers@, dimension, domain@.len() as usize) is None,
            r matches Err(e) ==> base_error(multipliers@, dimension, domain@.len() as usize) == Some(e),
            r matches Ok(base) ==> {
                &&& base.wf()
                &&& base.id_view() == 0
                &&& base.points_view() == domain@
                &&& base.multipliers_view() == multipliers@
                &&& base.dimension_view() == dimension
                &&& base.geometry_view() == BaseGeometry::Arbitrary
            },
    {
        Self::with_id(0, domain, multipliers, dimension)
    }

    /// Construct an arbitrary-domain base code with a stable peer-visible ID.
    pub fn with_id(id: u64, domain: EvaluationDomain<F>, multipliers: Vec<F>, dimension: usize) -> (r:
        Result<Self, Error>)
        requires
            domain.wf(),
            seq_wf(multipliers@),
        ensures
            r is Ok <==> base_error(multipliers@, dimension, domain@.len() as usize) is None,
            r matches Err(e) ==> base_error(multipliers@, dimension, domain@.len() as usize) == Some(e),
            r matches Ok(base) ==> {
                &&& base.wf()
                &&& base.id_view() == id
                &&& base.points_view() == domain@
                &&& base.multipliers_view() == multipliers@
                &&& base.dimension_view() == dimension
                &&& base.geometry_view() == BaseGeometry::Arbitrary
            },
    {
        let length = domain.len();
        match validate_base(multipliers.as_slice(), dimension, length) {
            Ok(()) => {},
            Err(e) => {
                return Err(e);
            },
        }
        Ok(BaseCode { id, domain, multipliers, dimension, geometry: BaseGeometry::Arbitrary })
    }

    /// Construct a multiplicative-orbit base `1, γ, …, γ^{n-1}`.
    pub fn multiplicative_orbit(id: u64, generator: F, multipliers: Vec<F>, dimension: usize) -> (r:
        Result<Self, Error>)
        requires
            generator.wf(),
            seq_wf(multipliers@),
        ensures
            orbit_too_short(generator, multipliers@.len()) ==> r == Err::<Self, Error>(
                Error::InsufficientOrbit { length: multipliers@.len() as usize },
            ),
            !orbit_too_short(generator, multipliers@.len()) && multipliers@.len() > 0 && !distinct(
                orbit_spec(generator, multipliers@.len()),
            ) ==> r matches Err(Error::Domain(DomainError::DuplicatePoint { .. })),
            !orbit_too_short(generator, multipliers@.len()) && multipliers@.len() == 0 ==> r
                == Err::<Self, Error>(Error::Domain(DomainError::Empty)),
            !orbit_too_short(generator, multipliers@.len()) && multipliers@.len() > 0 && distinct(
                orbit_spec(generator, multipliers@.len()),
            ) ==> {
                &&& r is Ok <==> orbit_base_error(generator, multipliers@, dimension) is None
                &&& r matches Err(e) ==> orbit_base_error(generator, multipliers@, dimension) == Some(e)
            },
            r matches Ok(base) ==> {
                &&& base.wf()
                &&& base.id_view() == id
                &&& base.points_view() == orbit_spec(generator, multipliers@.len())
                &&& base.multipliers_view() == multipliers@
                &&& base.dimension_view() == dimension
                &&& base.geometry_view() == BaseGeometry::MultiplicativeOrbit
            },
    {
        let length = multipliers.len();
        proof {
            F::lemma_closure(generator, generator);
        }
        if generator.is_zero() {
            return Err(Error::InsufficientOrbit { length });
        }
        let mut points: Vec<F> = Vec::with_capacity(length);
        let mut power = F::one();
        let one = F::one();
        let mut index: usize = 0;
        while index < length
            invariant
                F::field_valid(),
                generator.wf(),
                generator != F::zero_spec(),
                one == F::one_spec(),
                length == multipliers@.len(),
                index <= length,
                power == power_seq(generator, index as nat),
                power.wf(),
                points@ == orbit_spec(generator, index as nat),
                seq_wf(points@),
                forall|i: int| 0 < i < index ==> #[trigger] power_seq(generator, i as nat) != F::one_spec(),
            decreases length - index,
        {
            if index > 0 && power.equals(one) {
                proof {
                    let w = index as int;
                    assert(power_seq(generator, w as nat) == F::one_spec());
                    assert(0 < w < length);
                    assert(orbit_too_short(generator, length as nat));
                }
                return Err(Error::InsufficientOrbit { length });
            }
            points.push(power);
            proof {
                assert(points@ =~= orbit_spec(generator, index as nat + 1));
            }
            power = power.mul(generator);
            index += 1;
        }
        proof {
            assert(!orbit_too_short(generator, length as nat));
        }
        let domain = match EvaluationDomain::arbitrary(points) {
            Ok(domain) => domain,
            Err(e) => {
                return Err(Error::Domain(e));
            },
        };
        match validate_base(multipliers.as_slice(), dimension, length) {
            Ok(()) => {},
            Err(e) => {
                return Err(e);
            },
        }
        Ok(BaseCode { id, domain, multipliers, dimension, geometry: BaseGeometry::MultiplicativeOrbit })
    }

    /// Stable base-code identifier serialized on the wire.
    pub fn id(&self) -> (r: u64)
        ensures
            r == self.id_view(),
    {
        self.id
    }

    /// The base domain's validated geometry.
    pub fn geometry(&self) -> (r: BaseGeometry)
        ensures
            r == self.geometry_view(),
    {
        self.geometry
    }

    /// The base evaluation domain `α`.
    pub fn domain(&self) -> (r: &EvaluationDomain<F>)
        ensures
            r@ == self.points_view(),
    {
        &self.domain
    }

    /// The base column multipliers `v`.
    pub fn multipliers(&self) -> (r: &[F])
        ensures
            r@ == self.multipliers_view(),
    {
        self.multipliers.as_slice()
    }

    /// The base code length `n`.
    pub fn length(&self) -> (r: usize)
        ensures
            r == self.points_view().len(),
    {
        self.domain.len()
    }

    /// The message dimension `k`.
    pub fn dimension(&self) -> (r: usize)
        ensures
            r == self.dimension_view(),
    {
        self.dimension
    }
}

/// One generator in a transform word.
#[derive(Debug)]
pub enum TransformOp<F: Field> {
    /// A message-space twist.
    Twist(Twist<F>),
    /// A domain-position Möbius relabelling.
    Mobius(MobiusMap<F>),
    /// A domain-membership puncture of one coordinate (base index `< n`, or an
    /// extended index `>= n` that removes the matching extension).
    Puncture(usize),
    /// A domain-membership extension by a linear functional and multiplier.
    Extend(ExtendCoord<F>),
    /// A grouping fold by `m`.
    Fold(usize),
    /// A grouping interleave by `ℓ`.
    Interleave(usize),
}

/// The plain content of a generator.
pub enum OpView<F: Field> {
    Twist(Twist<F>),
    Mobius(MobiusMap<F>),
    Puncture(usize),
    Extend(Seq<F>, F),
    Fold(usize),
    Interleave(usize),
}

impl<F: Field> View for TransformOp<F> {
    type V = OpView<F>;

    open spec fn view(&self) -> OpView<F> {
        match self {
            TransformOp::Twist(t) => OpView::Twist(*t),
            TransformOp::Mobius(m) => OpView::Mobius(*m),
            TransformOp::Puncture(i) => OpView::Puncture(*i),
            TransformOp::Extend(c) => OpView::Extend(c@.0, c@.1),
            TransformOp::Fold(m) => OpView::Fold(*m),
            TransformOp::Interleave(o) => OpView::Interleave(*o),
        }
    }
}

impl<F: Field> Clone for TransformOp<F> {
    fn clone(&self) -> (r: Self)
        ensures
            r@ == self@,
    {
        match self {
            TransformOp::Twist(t) => TransformOp::Twist(*t),
            TransformOp::Mobius(m) => TransformOp::Mobius(*m),
            TransformOp::Puncture(i) => TransformOp::Puncture(*i),
            TransformOp::Extend(c) => TransformOp::Extend(c.clone()),
            TransformOp::Fold(m) => TransformOp::Fold(*m),
            TransformOp::Interleave(o) => TransformOp::Interleave(*o),
        }
    }
}

/// The contents of every generator in a word.
pub open spec fn op_views<F: Field>(ops: Seq<TransformOp<F>>) -> Seq<OpView<F>> {
    ops.map_values(|op: TransformOp<F>| op@)
}

/// Every field element a generator carries is canonical.
pub open spec fn op_wf<F: Field>(op: OpView<F>) -> bool {
    match op {
        OpView::Twist(t) => t.coefficient.wf(),
        OpView::Mobius(m) => m.wf(),
        OpView::Extend(functional, multiplier) => seq_wf(functional) && multiplier.wf(),
        _ => true,
    }
}

/// Merge one twist into the program (L3): an equal `(t, h)` pair sums its
/// coefficient, and a zero sum removes the pair; a new pair is appended.
pub open spec fn merge_spec<F: Field>(twists: Seq<Twist<F>>, offset: usize, hook: usize, coefficient: F) -> Seq<
    Twist<F>,
> {
    let position = key_position(twists, offset, hook, 0);
    if position < twists.len() {
        let combined = twists[position].coefficient.add_spec(coefficient);
        if combined == F::zero_spec() {
            twists.remove(position)
        } else {
            twists.update(position, Twist { offset, hook, coefficient: combined })
        }
    } else {
        twists.push(Twist { offset, hook, coefficient })
    }
}

/// The first index at or after `from` holding the pair `(offset, hook)`, or
/// the length.
pub open spec fn key_position<F: Field>(twists: Seq<Twist<F>>, offset: usize, hook: usize, from: int) -> int
    decreases twists.len() - from,
{
    if from < 0 || from >= twists.len() {
        twists.len() as int
    } else if twists[from].offset == offset && twists[from].hook == hook {
        from
    } else {
        key_position(twists, offset, hook, from + 1)
    }
}

pub proof fn lemma_key_position<F: Field>(twists: Seq<Twist<F>>, offset: usize, hook: usize, from: int)
    requires
        0 <= from <= twists.len(),
    ensures
        from <= key_position(twists, offset, hook, from) <= twists.len(),
        key_position(twists, offset, hook, from) < twists.len() ==> twists[key_position(
            twists,
            offset,
            hook,
            from,
        )].offset == offset && twists[key_position(twists, offset, hook, from)].hook == hook,
        forall|i: int|
            from <= i < key_position(twists, offset, hook, from) ==> !(#[trigger] twists[i].offset == offset
                && twists[i].hook == hook),
    decreases twists.len() - from,
{
    if from < twists.len() && !(twists[from].offset == offset && twists[from].hook == hook) {
        lemma_key_position(twists, offset, hook, from + 1);
    }
}

/// No two entries share an `(offset, hook)` pair.
pub open spec fn keys_unique<F: Field>(twists: Seq<Twist<F>>) -> bool {
    forall|i: int, j: int|
        #![trigger twists[i], twists[j]]
        0 <= i < j < twists.len() ==> !(twists[i].offset == twists[j].offset && twists[i].hook
            == twists[j].hook)
}

/// Every entry is an admissible twist of a `k`-dimensional code of length
/// `n` with a canonical nonzero coefficient.
pub open spec fn twists_admissible<F: Field>(twists: Seq<Twist<F>>, k: usize, n: usize) -> bool {
    forall|i: int|
        0 <= i < twists.len() ==> {
            let t = #[trigger] twists[i];
            &&& 1 <= t.offset <= n - k
            &&& t.hook < k
            &&& t.coefficient.wf()
            &&& t.coefficient != F::zero_spec()
        }
}

/// Merge a twist into the destination-grouped program (L3).
fn merge_twist<F: Field>(twists: &mut Vec<Twist<F>>, offset: usize, hook: usize, coefficient: F)
    requires
        forall|i: int| 0 <= i < old(twists)@.len() ==> (#[trigger] old(twists)@[i]).coefficient.wf(),
        coefficient.wf(),
    ensures
        final(twists)@ == merge_spec(old(twists)@, offset, hook, coefficient),
{
    let ghost before = twists@;
    proof {
        lemma_key_position(before, offset, hook, 0);
    }
    let mut position: usize = 0;
    while position < twists.len()
        invariant
            twists@ == before,
            position <= before.len(),
            key_position(before, offset, hook, 0) == key_position(before, offset, hook, position as int),
        ensures
            twists@ == before,
            position <= before.len(),
            position == key_position(before, offset, hook, 0),
        decreases before.len() - position,
    {
        if twists[position].offset == offset && twists[position].hook == hook {
            break;
        }
        position += 1;
    }
    if position < twists.len() {
        proof {
            assert(before[position as int].coefficient.wf());
        }
        let combined = twists[position].coefficient.add(coefficient);
        if combined.is_zero() {
            twists.remove(position);
        } else {
            twists.set(position, Twist { offset, hook, coefficient: combined });
        }
    } else {
        twists.push(Twist { offset, hook, coefficient });
    }
}

/// Merging keeps the program admissible and its pairs unique.
pub proof fn lemma_merge_keeps<F: Field>(twists: Seq<Twist<F>>, t: Twist<F>, k: usize, n: usize)
    requires
        twists_admissible(twists, k, n),
        keys_unique(twists),
        1 <= t.offset <= n - k,
        t.hook < k,
        t.coefficient.wf(),
        t.coefficient != F::zero_spec(),
    ensures
        twists_admissible(merge_spec(twists, t.offset, t.hook, t.coefficient), k, n),
        keys_unique(merge_spec(twists, t.offset, t.hook, t.coefficient)),
{
    lemma_key_position(twists, t.offset, t.hook, 0);
    let position = key_position(twists, t.offset, t.hook, 0);
    let merged = merge_spec(twists, t.offset, t.hook, t.coefficient);
    if position < twists.len() {
        let combined = twists[position].coefficient.add_spec(t.coefficient);
        F::lemma_closure(twists[position].coefficient, t.coefficient);
        if combined == F::zero_spec() {
            assert forall|i: int, j: int|
                #![trigger merged[i], merged[j]]
                0 <= i < j < merged.len() implies !(merged[i].offset == merged[j].offset
                && merged[i].hook == merged[j].hook) by {
                let a = if i < position { i } else { i + 1 };
                let b = if j < position { j } else { j + 1 };
                assert(merged[i] == twists[a] && merged[j] == twists[b]);
            }
        } else {
            assert forall|i: int, j: int|
                #![trigger merged[i], merged[j]]
                0 <= i < j < merged.len() implies !(merged[i].offset == merged[j].offset
                && merged[i].hook == merged[j].hook) by {
                assert(twists[i].offset == merged[i].offset && twists[i].hook == merged[i].hook);
                assert(twists[j].offset == merged[j].offset && twists[j].hook == merged[j].hook);
            }
        }
    } else {
        assert forall|i: int, j: int|
            #![trigger merged[i], merged[j]]
            0 <= i < j < merged.len() implies !(merged[i].offset == merged[j].offset
            && merged[i].hook == merged[j].hook) by {
            if j == twists.len() {
                assert(merged[i] == twists[i]);
            } else {
                assert(merged[i] == twists[i] && merged[j] == twists[j]);
            }
        }
    }
}

/// The honest decode capability of a reduced state.
pub open spec fn capability_spec<F: Field>(
    pseudo_dimension: usize,
    fold: usize,
    interleave: usize,
    mobius: MobiusMap<F>,
    punctures: Seq<usize>,
    base_length: usize,
    extends_empty: bool,
    length: usize,
    geometry: BaseGeometry,
) -> DecoderCapability {
    if interleave > 1 {
        DecoderCapability::Collaborative { pseudo_dimension, order: interleave }
    } else if fold > 1 && geometry == BaseGeometry::MultiplicativeOrbit && length % fold == 0
        && orbit_preserving_spec(mobius) && extends_empty && blocks_aligned_spec(
        punctures,
        base_length as nat,
        fold as nat,
    ) {
        DecoderCapability::FoldedList { pseudo_dimension, fold }
    } else {
        DecoderCapability::AmbientGs { pseudo_dimension }
    }
}

/// Interleaving takes precedence: whenever the net interleave order exceeds
/// one, the capability is collaborative decoding of that order, whatever the
/// fold, geometry, Möbius map, punctures or extensions; folded list decoding
/// is offered only for a single row with a genuine fold over a multiplicative
/// orbit; and the pseudo-dimension always passes through unchanged.
pub proof fn law_capability_prefers_interleaving<F: Field>(
    pseudo_dimension: usize,
    fold: usize,
    interleave: usize,
    mobius: MobiusMap<F>,
    punctures: Seq<usize>,
    base_length: usize,
    extends_empty: bool,
    length: usize,
    geometry: BaseGeometry,
)
    ensures
        ({
            let c = capability_spec(
                pseudo_dimension,
                fold,
                interleave,
                mobius,
                punctures,
                base_length,
                extends_empty,
                length,
                geometry,
            );
            &&& interleave > 1 ==> c == DecoderCapability::Collaborative {
                pseudo_dimension,
                order: interleave,
            }
            &&& c is Collaborative ==> interleave > 1
            &&& c matches DecoderCapability::FoldedList { pseudo_dimension: p, fold: f } ==> {
                &&& interleave <= 1
                &&& f == fold
                &&& fold > 1
                &&& p == pseudo_dimension
                &&& geometry == BaseGeometry::MultiplicativeOrbit
                &&& extends_empty
            }
            &&& c matches DecoderCapability::AmbientGs { pseudo_dimension: p } ==> interleave <= 1
                && p == pseudo_dimension
            &&& c matches DecoderCapability::Collaborative { pseudo_dimension: p, order: o } ==> p
                == pseudo_dimension && o == interleave
        }),
{
}

/// Derive the honest decode capability from the reduced state.
pub fn derive_capability<F: Field>(
    pseudo_dimension: usize,
    fold: usize,
    interleave: usize,
    mobius: &MobiusMap<F>,
    punctures: &[usize],
    base_length: usize,
    extends: &[ExtendCoord<F>],
    length: usize,
    geometry: BaseGeometry,
) -> (r: DecoderCapability)
    requires
        mobius.wf(),
    ensures
        r == capability_spec(
            pseudo_dimension,
            fold,
            interleave,
            *mobius,
            punctures@,
            base_length,
            extends@.len() == 0,
            length,
            geometry,
        ),
{
    if interleave > 1 {
        return DecoderCapability::Collaborative { pseudo_dimension, order: interleave };
    }
    if fold > 1 {
        let orbit = match geometry {
            BaseGeometry::MultiplicativeOrbit => true,
            BaseGeometry::Arbitrary => false,
        };
        let foldable = orbit && length % fold == 0 && mobius.is_orbit_preserving() && extends.len()
            == 0 && crate::puncture::blocks_aligned(punctures, base_length, fold);
        if foldable {
            return DecoderCapability::FoldedList { pseudo_dimension, fold };
        }
    }
    DecoderCapability::AmbientGs { pseudo_dimension }
}

} // verus!

verus! {

/// The reduced state of a word prefix: merged twists, net Möbius map,
/// punctured base indices, surviving extensions, net fold and interleave.
pub struct WordState<F: Field> {
    pub twists: Seq<Twist<F>>,
    pub mobius: MobiusMap<F>,
    pub punctures: Seq<usize>,
    pub extends: Seq<(Seq<F>, F)>,
    pub fold: usize,
    pub interleave: usize,
}

/// The state of the empty word.
pub open spec fn initial_state<F: Field>() -> WordState<F> {
    WordState {
        twists: Seq::empty(),
        mobius: crate::mobius::identity_spec(),
        punctures: Seq::empty(),
        extends: Seq::empty(),
        fold: 1,
        interleave: 1,
    }
}

/// One reduction step over a base of dimension `k` and length `n`.
pub open spec fn step_spec<F: Field>(s: WordState<F>, op: OpView<F>, k: usize, n: usize) -> Result<
    WordState<F>,
    Error,
> {
    match op {
        OpView::Twist(t) => {
            let max = (n - k) as usize;
            if t.offset < 1 || t.offset > max {
                Err(Error::TwistOffset { offset: t.offset, max })
            } else if t.hook >= k {
                Err(Error::TwistHook { hook: t.hook, dimension: k })
            } else if t.coefficient == F::zero_spec() {
                Err(Error::ZeroTwistCoefficient { index: s.twists.len() as usize })
            } else {
                Ok(
                    WordState {
                        twists: merge_spec(s.twists, t.offset, t.hook, t.coefficient),
                        mobius: s.mobius,
                        punctures: s.punctures,
                        extends: s.extends,
                        fold: s.fold,
                        interleave: s.interleave,
                    },
                )
            }
        },
        OpView::Mobius(m) => {
            if crate::mobius::determinant_spec(m) == F::zero_spec() {
                Err(Error::MobiusDelta)
            } else {
                Ok(
                    WordState {
                        twists: s.twists,
                        mobius: crate::mobius::compose_spec(m, s.mobius),
                        punctures: s.punctures,
                        extends: s.extends,
                        fold: s.fold,
                        interleave: s.interleave,
                    },
                )
            }
        },
        OpView::Puncture(index) => {
            if index < n {
                Ok(
                    WordState {
                        twists: s.twists,
                        mobius: s.mobius,
                        punctures: if s.punctures.contains(index) {
                            s.punctures
                        } else {
                            s.punctures.push(index)
                        },
                        extends: s.extends,
                        fold: s.fold,
                        interleave: s.interleave,
                    },
                )
            } else if index - n >= s.extends.len() {
                if n + s.extends.len() > usize::MAX {
                    Err(Error::GeometryOverflow { context: "transform word length" })
                } else {
                    Err(Error::PunctureIndex { index, length: (n + s.extends.len()) as usize })
                }
            } else {
                Ok(
                    WordState {
                        twists: s.twists,
                        mobius: s.mobius,
                        punctures: s.punctures,
                        extends: s.extends.remove(index - n),
                        fold: s.fold,
                        interleave: s.interleave,
                    },
                )
            }
        },
        OpView::Extend(functional, multiplier) => {
            if functional.len() != k {
                Err(Error::FunctionalLength { expected: k, got: functional.len() as usize })
            } else if multiplier == F::zero_spec() {
                if n + s.extends.len() > usize::MAX {
                    Err(Error::GeometryOverflow { context: "extension coordinate index" })
                } else {
                    Err(Error::ZeroMultiplier { index: (n + s.extends.len()) as usize })
                }
            } else {
                Ok(
                    WordState {
                        twists: s.twists,
                        mobius: s.mobius,
                        punctures: s.punctures,
                        extends: s.extends.push((functional, multiplier)),
                        fold: s.fold,
                        interleave: s.interleave,
                    },
                )
            }
        },
        OpView::Fold(m) => {
            if m == 0 {
                Err(Error::FoldParameter { fold: 0, length: n })
            } else if s.fold * m > usize::MAX {
                Err(Error::GeometryOverflow { context: "net fold" })
            } else {
                Ok(
                    WordState {
                        twists: s.twists,
                        mobius: s.mobius,
                        punctures: s.punctures,
                        extends: s.extends,
                        fold: (s.fold * m) as usize,
                        interleave: s.interleave,
                    },
                )
            }
        },
        OpView::Interleave(order) => {
            if order == 0 {
                Err(Error::ZeroInterleave)
            } else if s.interleave * order > usize::MAX {
                Err(Error::GeometryOverflow { context: "net interleave" })
            } else {
                Ok(
                    WordState {
                        twists: s.twists,
                        mobius: s.mobius,
                        punctures: s.punctures,
                        extends: s.extends,
                        fold: s.fold,
                        interleave: (s.interleave * order) as usize,
                    },
                )
            }
        },
    }
}

/// The state after the first `m` generators, or the first error.
pub open spec fn run_spec<F: Field>(ops: Seq<OpView<F>>, k: usize, n: usize, m: int) -> Result<
    WordState<F>,
    Error,
>
    decreases m,
{
    if m <= 0 {
        Ok(initial_state())
    } else {
        match run_spec(ops, k, n, m - 1) {
            Err(e) => Err(e),
            Ok(s) => step_spec(s, ops[m - 1], k, n),
        }
    }
}

/// The largest twist offset in the program, or zero.
pub open spec fn net_max_offset<F: Field>(twists: Seq<Twist<F>>) -> nat {
    crate::code::max_offset(twists, twists.len() as int)
}

/// The error the closing checks of a reduction raise, if any: the
/// pseudo-dimension, too few surviving coordinates, the code length.
pub open spec fn finish_error<F: Field>(s: WordState<F>, k: usize, n: usize) -> Option<Error> {
    let survivors = n - s.punctures.len();
    if k + net_max_offset(s.twists) > usize::MAX {
        Some(Error::GeometryOverflow { context: "descriptor pseudo-dimension" })
    } else if survivors < k {
        Some(Error::PunctureLength { remaining: survivors as usize, dimension: k })
    } else if survivors + s.extends.len() > usize::MAX {
        Some(Error::GeometryOverflow { context: "descriptor code length" })
    } else {
        None
    }
}

/// The views of a list of extension coordinates.
pub open spec fn extend_views<F: Field>(list: Seq<ExtendCoord<F>>) -> Seq<(Seq<F>, F)> {
    list.map_values(|c: ExtendCoord<F>| c@)
}

/// A base code plus an ordered list of transform generators.
#[derive(Debug)]
pub struct TransformWord<F: Field> {
    base: BaseCode<F>,
    ops: Vec<TransformOp<F>>,
}

/// The reduced, axis-sorted state that fully determines a deformed code.
#[derive(Debug)]
pub struct CanonicalDescriptor<F: Field> {
    base: BaseCode<F>,
    twists: Vec<Twist<F>>,
    mobius: MobiusMap<F>,
    punctures: Vec<usize>,
    extends: Vec<ExtendCoord<F>>,
    fold: usize,
    interleave: usize,
    pseudo_dimension: usize,
    capability: DecoderCapability,
}

impl<F: Field> TransformWord<F> {
    pub closed spec fn base_view(&self) -> BaseCode<F> {
        self.base
    }

    pub closed spec fn ops_view(&self) -> Seq<OpView<F>> {
        op_views(self.ops@)
    }

    /// A valid base and canonical generator contents.
    pub open spec fn wf(&self) -> bool {
        &&& self.base_view().wf()
        &&& forall|i: int| 0 <= i < self.ops_view().len() ==> op_wf(#[trigger] self.ops_view()[i])
    }

    /// `d` is the canonical descriptor of the reduced state `s` of this word.
    pub open spec fn reduces_to(&self, s: WordState<F>, d: CanonicalDescriptor<F>) -> bool {
        let k = self.base_view().dimension_view();
        let n = self.base_view().points_view().len() as usize;
        &&& d.wf()
        &&& d.base_view().id_view() == self.base_view().id_view()
        &&& d.base_view().points_view() == self.base_view().points_view()
        &&& d.base_view().multipliers_view() == self.base_view().multipliers_view()
        &&& d.base_view().dimension_view() == k
        &&& d.base_view().geometry_view() == self.base_view().geometry_view()
        &&& d.twists_view().len() == s.twists.len()
        &&& forall|t: Twist<F>| #[trigger] d.twists_view().contains(t) == s.twists.contains(t)
        &&& d.punctures_view().len() == s.punctures.len()
        &&& forall|v: usize| #[trigger] d.punctures_view().contains(v) == s.punctures.contains(v)
        &&& d.extends_view() == s.extends
        &&& d.fold_view() == s.fold
        &&& d.interleave_view() == s.interleave
        &&& d.mobius_view() == crate::mobius::normalized_spec(s.mobius)
        &&& d.pseudo_dimension_view() == k + net_max_offset(s.twists)
        &&& d.capability_view() == capability_spec(
            d.pseudo_dimension_view(),
            s.fold,
            s.interleave,
            d.mobius_view(),
            d.punctures_view(),
            n,
            s.extends.len() == 0,
            d.length_spec() as usize,
            self.base_view().geometry_view(),
        )
    }

    /// The reduction of this word, or the first error.
    pub open spec fn run(&self) -> Result<WordState<F>, Error> {
        run_spec(
            self.ops_view(),
            self.base_view().dimension_view(),
            self.base_view().points_view().len() as usize,
            self.ops_view().len() as int,
        )
    }

    /// Start an empty word over a base code (the ordinary GRS code).
    pub fn new(base: BaseCode<F>) -> (r: Self)
        ensures
            r.base_view() == base,
            r.ops_view() == Seq::<OpView<F>>::empty(),
    {
        let r = TransformWord { base, ops: Vec::new() };
        proof {
            assert(r.ops_view() =~= Seq::<OpView<F>>::empty());
        }
        r
    }

    /// Append one generator, handing the word back for chaining.
    pub fn push(&mut self, op: TransformOp<F>) -> (r: &mut Self)
        ensures
            r.base_view() == old(self).base_view(),
            r.ops_view() == old(self).ops_view().push(op@),
            *final(self) == *final(r),
    {
        let ghost before = self.ops@;
        self.ops.push(op);
        proof {
            assert(op_views(self.ops@) =~= op_views(before).push(op@));
        }
        self
    }

    /// The base code.
    pub fn base(&self) -> (r: &BaseCode<F>)
        ensures
            *r == self.base_view(),
    {
        &self.base
    }

    /// The generator sequence.
    pub fn ops(&self) -> (r: &[TransformOp<F>])
        ensures
            op_views(r@) == self.ops_view(),
    {
        self.ops.as_slice()
    }
}

} // verus!

verus! {

proof fn lemma_run_error<F: Field>(ops: Seq<OpView<F>>, k: usize, n: usize, i: int, m: int, e: Error)
    requires
        0 <= i <= m,
        run_spec(ops, k, n, i) == Err::<WordState<F>, Error>(e),
    ensures
        run_spec(ops, k, n, m) == Err::<WordState<F>, Error>(e),
    decreases m - i,
{
    if m > i {
        lemma_run_error(ops, k, n, i, m - 1, e);
    }
}

/// Two programs with the same entries have the same largest offset.
proof fn lemma_max_same<F: Field>(a: Seq<Twist<F>>, b: Seq<Twist<F>>)
    requires
        forall|t: Twist<F>| #[trigger] a.contains(t) == b.contains(t),
    ensures
        net_max_offset(a) == net_max_offset(b),
{
    crate::code::lemma_max_offset(a, a.len() as int);
    crate::code::lemma_max_offset(b, b.len() as int);
    if a.len() > 0 {
        let i = choose|i: int| 0 <= i < a.len() && (#[trigger] a[i]).offset == net_max_offset(a);
        assert(a.contains(a[i]));
        assert(b.contains(a[i]));
        let j = choose|j: int| 0 <= j < b.len() && b[j] == a[i];
        assert(b[j].offset <= net_max_offset(b));
    }
    if b.len() > 0 {
        let i = choose|i: int| 0 <= i < b.len() && (#[trigger] b[i]).offset == net_max_offset(b);
        assert(b.contains(b[i]));
        assert(a.contains(b[i]));
        let j = choose|j: int| 0 <= j < a.len() && a[j] == b[i];
        assert(a[j].offset <= net_max_offset(a));
    }
}

/// Every surviving extension has `k` canonical coefficients and a canonical
/// nonzero multiplier.
pub open spec fn extends_admissible<F: Field>(extends: Seq<(Seq<F>, F)>, k: usize) -> bool {
    forall|j: int|
        0 <= j < extends.len() ==> {
            let c = #[trigger] extends[j];
            &&& c.0.len() == k
            &&& seq_wf(c.0)
            &&& c.1.wf()
            &&& c.1 != F::zero_spec()
        }
}

impl<F: Field> CanonicalDescriptor<F> {
    pub closed spec fn base_view(&self) -> BaseCode<F> {
        self.base
    }

    pub closed spec fn twists_view(&self) -> Seq<Twist<F>> {
        self.twists@
    }

    pub closed spec fn mobius_view(&self) -> MobiusMap<F> {
        self.mobius
    }

    pub closed spec fn punctures_view(&self) -> Seq<usize> {
        self.punctures@
    }

    pub closed spec fn extends_view(&self) -> Seq<(Seq<F>, F)> {
        extend_views(self.extends@)
    }

    pub closed spec fn fold_view(&self) -> usize {
        self.fold
    }

    pub closed spec fn interleave_view(&self) -> usize {
        self.interleave
    }

    pub closed spec fn pseudo_dimension_view(&self) -> usize {
        self.pseudo_dimension
    }

    pub closed spec fn capability_view(&self) -> DecoderCapability {
        self.capability
    }

    /// The base length `n`.
    pub open spec fn base_length(&self) -> nat {
        self.base_view().points_view().len()
    }

    /// The flat codeword length: surviving base coordinates plus extensions.
    pub open spec fn length_spec(&self) -> nat {
        (self.base_length() - self.punctures_view().len()) as nat + self.extends_view().len()
    }

    /// A reduced state: sorted admissible twists, sorted base punctures,
    /// admissible extensions, and the derived sizes.
    pub open spec fn wf(&self) -> bool {
        let k = self.base_view().dimension_view();
        let n = self.base_length() as usize;
        &&& self.base_view().wf()
        &&& twists_admissible(self.twists_view(), k, n)
        &&& crate::sorting::keys_increasing(self.twists_view())
        &&& self.mobius_view().wf()
        &&& crate::sorting::increasing(self.punctures_view())
        &&& forall|i: int| 0 <= i < self.punctures_view().len() ==> #[trigger] self.punctures_view()[i] < n
        &&& extends_admissible(self.extends_view(), k)
        &&& self.pseudo_dimension_view() == k + net_max_offset(self.twists_view())
        &&& self.punctures_view().len() + k <= n
        &&& self.length_spec() <= usize::MAX
    }

    /// The base code.
    pub fn base(&self) -> (r: &BaseCode<F>)
        ensures
            *r == self.base_view(),
    {
        &self.base
    }

    /// The merged, destination-sorted twist program.
    pub fn twists(&self) -> (r: &[Twist<F>])
        ensures
            r@ == self.twists_view(),
    {
        self.twists.as_slice()
    }

    /// The net Möbius map (identity when the word carried none).
    pub fn mobius(&self) -> (r: &MobiusMap<F>)
        ensures
            *r == self.mobius_view(),
    {
        &self.mobius
    }

    /// The net puncture set, in ascending base-coordinate order.
    pub fn punctures(&self) -> (r: &[usize])
        ensures
            r@ == self.punctures_view(),
    {
        self.punctures.as_slice()
    }

    /// The surviving extension coordinates.
    pub fn extends(&self) -> (r: &[ExtendCoord<F>])
        ensures
            extend_views(r@) == self.extends_view(),
    {
        self.extends.as_slice()
    }

    /// The net fold `m`.
    pub fn fold(&self) -> (r: usize)
        ensures
            r == self.fold_view(),
    {
        self.fold
    }

    /// The net interleave order `ℓ`.
    pub fn interleave(&self) -> (r: usize)
        ensures
            r == self.interleave_view(),
    {
        self.interleave
    }

    /// The pseudo-dimension `k'` the ambient decoder runs at.
    pub fn pseudo_dimension(&self) -> (r: usize)
        ensures
            r == self.pseudo_dimension_view(),
    {
        self.pseudo_dimension
    }

    /// The honest decode capability after normalization.
    pub fn capability(&self) -> (r: DecoderCapability)
        ensures
            r == self.capability_view(),
    {
        self.capability
    }

    /// The flat codeword length: surviving base coordinates plus extensions.
    pub fn length(&self) -> (r: usize)
        requires
            self.wf(),
        ensures
            r == self.length_spec(),
    {
        (self.base.length() - self.punctures.len()) + self.extends.len()
    }

    /// The message dimension `k`.
    pub fn dimension(&self) -> (r: usize)
        ensures
            r == self.base_view().dimension_view(),
    {
        self.base.dimension()
    }
}

impl<F: Field> TransformWord<F> {
    /// Reduce the word to its canonical descriptor by the closure laws.
    ///
    /// The generators are folded in order; the first invalid generator's
    /// error is returned. The closing checks then bound the pseudo-dimension,
    /// the surviving length and the code length.
    pub fn normalize(&self) -> (r: Result<CanonicalDescriptor<F>, Error>)
        requires
            self.wf(),
        ensures
            self.run() matches Err(e) ==> r == Err::<CanonicalDescriptor<F>, Error>(e),
            self.run() matches Ok(s) ==> {
                let k = self.base_view().dimension_view();
                let n = self.base_view().points_view().len() as usize;
                &&& r is Err <==> finish_error(s, k, n) is Some
                &&& r matches Err(e) ==> finish_error(s, k, n) == Some(e)
                &&& r matches Ok(d) ==> self.reduces_to(s, d)
            },
    {
        let k = self.base.dimension();
        let base_length = self.base.length();
        let max_offset_allowed = base_length - k;
        let ghost ops = self.ops_view();
        let mut twists: Vec<Twist<F>> = Vec::new();
        let mut mobius = MobiusMap::<F>::identity();
        let mut punctures: Vec<usize> = Vec::new();
        let mut extends: Vec<ExtendCoord<F>> = Vec::new();
        let mut fold: usize = 1;
        let mut interleave: usize = 1;
        let mut index: usize = 0;
        proof {
            assert(extend_views(extends@) =~= Seq::<(Seq<F>, F)>::empty());
        }
        while index < self.ops.len()
            invariant
                self.wf(),
                ops == self.ops_view(),
                ops.len() == self.ops@.len(),
                k == self.base_view().dimension_view(),
                base_length == self.base_view().points_view().len(),
                0 < k < base_length,
                max_offset_allowed == base_length - k,
                index <= ops.len(),
                run_spec(ops, k, base_length, index as int) == Ok::<WordState<F>, Error>(
                    WordState {
                        twists: twists@,
                        mobius,
                        punctures: punctures@,
                        extends: extend_views(extends@),
                        fold,
                        interleave,
                    },
                ),
                twists_admissible(twists@, k, base_length),
                keys_unique(twists@),
                mobius.wf(),
                forall|a: int, b: int|
                    #![trigger punctures@[a], punctures@[b]]
                    0 <= a < b < punctures@.len() ==> punctures@[a] != punctures@[b],
                forall|a: int| 0 <= a < punctures@.len() ==> #[trigger] punctures@[a] < base_length,
                extends_admissible(extend_views(extends@), k),
            decreases ops.len() - index,
        {
            let ghost state = WordState {
                twists: twists@,
                mobius,
                punctures: punctures@,
                extends: extend_views(extends@),
                fold,
                interleave,
            };
            proof {
                assert(ops[index as int] == self.ops@[index as int]@);
                assert(op_wf(ops[index as int]));
            }
            match &self.ops[index] {
                TransformOp::Twist(twist) => {
                    let offset = twist.offset;
                    let hook = twist.hook;
                    if offset < 1 || offset > max_offset_allowed {
                        proof {
                            lemma_run_error(ops, k, base_length, index as int + 1, ops.len() as int,
                                Error::TwistOffset { offset, max: max_offset_allowed });
                        }
                        return Err(Error::TwistOffset { offset, max: max_offset_allowed });
                    }
                    if hook >= k {
                        proof {
                            lemma_run_error(ops, k, base_length, index as int + 1, ops.len() as int,
                                Error::TwistHook { hook, dimension: k });
                        }
                        return Err(Error::TwistHook { hook, dimension: k });
                    }
                    if twist.coefficient.is_zero() {
                        proof {
                            lemma_run_error(ops, k, base_length, index as int + 1, ops.len() as int,
                                Error::ZeroTwistCoefficient { index: twists.len() });
                        }
                        return Err(Error::ZeroTwistCoefficient { index: twists.len() });
                    }
                    proof {
                        lemma_merge_keeps(twists@, *twist, k, base_length);
                    }
                    merge_twist(&mut twists, offset, hook, twist.coefficient);
                },
                TransformOp::Mobius(map) => {
                    if map.determinant().is_zero() {
                        proof {
                            lemma_run_error(ops, k, base_length, index as int + 1, ops.len() as int,
                                Error::MobiusDelta);
                        }
                        return Err(Error::MobiusDelta);
                    }
                    mobius = map.compose(&mobius);
                },
                TransformOp::Puncture(position) => {
                    let position = *position;
                    if position < base_length {
                        if !crate::puncture::contains_index(punctures.as_slice(), position) {
                            punctures.push(position);
                        }
                    } else {
                        let slot = position - base_length;
                        if slot >= extends.len() {
                            if base_length > usize::MAX - extends.len() {
                                proof {
                                    lemma_run_error(ops, k, base_length, index as int + 1, ops.len() as int,
                                        Error::GeometryOverflow { context: "transform word length" });
                                }
                                return Err(Error::GeometryOverflow { context: "transform word length" });
                            }
                            let current_length = base_length + extends.len();
                            proof {
                                lemma_run_error(ops, k, base_length, index as int + 1, ops.len() as int,
                                    Error::PunctureIndex { index: position, length: current_length });
                            }
                            return Err(Error::PunctureIndex { index: position, length: current_length });
                        }
                        let ghost before = extends@;
                        extends.remove(slot);
                        proof {
                            assert(extend_views(extends@) =~= extend_views(before).remove(slot as int));
                        }
                    }
                },
                TransformOp::Extend(coord) => {
                    if coord.functional.len() != k {
                        proof {
                            lemma_run_error(ops, k, base_length, index as int + 1, ops.len() as int,
                                Error::FunctionalLength { expected: k, got: coord.functional.len() });
                        }
                        return Err(Error::FunctionalLength { expected: k, got: coord.functional.len() });
                    }
                    if coord.multiplier.is_zero() {
                        if base_length > usize::MAX - extends.len() {
                            proof {
                                lemma_run_error(ops, k, base_length, index as int + 1, ops.len() as int,
                                    Error::GeometryOverflow { context: "extension coordinate index" });
                            }
                            return Err(Error::GeometryOverflow { context: "extension coordinate index" });
                        }
                        let bad = base_length + extends.len();
                        proof {
                            lemma_run_error(ops, k, base_length, index as int + 1, ops.len() as int,
                                Error::ZeroMultiplier { index: bad });
                        }
                        return Err(Error::ZeroMultiplier { index: bad });
                    }
                    let ghost before = extends@;
                    extends.push(coord.clone());
                    proof {
                        assert(extend_views(extends@) =~= extend_views(before).push(coord@));
                    }
                },
                TransformOp::Fold(m) => {
                    let m = *m;
                    if m == 0 {
                        proof {
                            lemma_run_error(ops, k, base_length, index as int + 1, ops.len() as int,
                                Error::FoldParameter { fold: 0, length: base_length });
                        }
                        return Err(Error::FoldParameter { fold: 0, length: base_length });
                    }
                    match fold.checked_mul(m) {
                        Some(product) => {
                            fold = product;
                        },
                        None => {
                            proof {
                                lemma_run_error(ops, k, base_length, index as int + 1, ops.len() as int,
                                    Error::GeometryOverflow { context: "net fold" });
                            }
                            return Err(Error::GeometryOverflow { context: "net fold" });
                        },
                    }
                },
                TransformOp::Interleave(order) => {
                    let order = *order;
                    if order == 0 {
                        proof {
                            lemma_run_error(ops, k, base_length, index as int + 1, ops.len() as int,
                                Error::ZeroInterleave);
                        }
                        return Err(Error::ZeroInterleave);
                    }
                    match interleave.checked_mul(order) {
                        Some(product) => {
                            interleave = product;
                        },
                        None => {
                            proof {
                                lemma_run_error(ops, k, base_length, index as int + 1, ops.len() as int,
                                    Error::GeometryOverflow { context: "net interleave" });
                            }
                            return Err(Error::GeometryOverflow { context: "net interleave" });
                        },
                    }
                },
            }
            index += 1;
        }
        let ghost state = WordState {
            twists: twists@,
            mobius,
            punctures: punctures@,
            extends: extend_views(extends@),
            fold,
            interleave,
        };
        let sorted_twists = crate::sorting::sort_twists(twists.as_slice());
        let sorted_punctures = crate::sorting::sort_indices(punctures.as_slice());
        proof {
            lemma_max_same(sorted_twists@, twists@);
            crate::code::lemma_max_offset(sorted_twists@, sorted_twists@.len() as int);
            assert forall|i: int| 0 <= i < sorted_twists@.len() implies {
                let t = #[trigger] sorted_twists@[i];
                &&& 1 <= t.offset <= base_length - k
                &&& t.hook < k
                &&& t.coefficient.wf()
                &&& t.coefficient != F::zero_spec()
            } by {
                assert(sorted_twists@.contains(sorted_twists@[i]));
                assert(twists@.contains(sorted_twists@[i]));
            }
            assert forall|i: int| 0 <= i < sorted_punctures@.len() implies #[trigger] sorted_punctures@[i] < base_length by {
                assert(sorted_punctures@.contains(sorted_punctures@[i]));
                assert(punctures@.contains(sorted_punctures@[i]));
            }
            crate::puncture::lemma_increasing_bound_pub(sorted_punctures@, base_length);
        }
        let mut max_twist: usize = 0;
        let mut position: usize = 0;
        while position < sorted_twists.len()
            invariant
                position <= sorted_twists@.len(),
                max_twist == crate::code::max_offset(sorted_twists@, position as int),
            decreases sorted_twists@.len() - position,
        {
            if sorted_twists[position].offset > max_twist {
                max_twist = sorted_twists[position].offset;
            }
            position += 1;
        }
        if k > usize::MAX - max_twist {
            return Err(Error::GeometryOverflow { context: "descriptor pseudo-dimension" });
        }
        let pseudo_dimension = k + max_twist;
        let survivors = base_length - sorted_punctures.len();
        if survivors < k {
            return Err(Error::PunctureLength { remaining: survivors, dimension: k });
        }
        if survivors > usize::MAX - extends.len() {
            return Err(Error::GeometryOverflow { context: "descriptor code length" });
        }
        let length = survivors + extends.len();
        let normalized = mobius.normalized();
        let capability = derive_capability(
            pseudo_dimension,
            fold,
            interleave,
            &normalized,
            sorted_punctures.as_slice(),
            base_length,
            extends.as_slice(),
            length,
            self.base.geometry(),
        );
        Ok(
            CanonicalDescriptor {
                base: self.base.clone(),
                twists: sorted_twists,
                mobius: normalized,
                punctures: sorted_punctures,
                extends,
                fold,
                interleave,
                pseudo_dimension,
                capability,
            },
        )
    }
}

} // verus!

verus! {

/// The twisted message polynomial evaluated at `y`: Horner's value of the
/// free coefficients plus `η · f_h · y^{k-1+t}` for each twist in order.
pub open spec fn twisted_value<F: Field>(message: Seq<F>, y: F, twists: Seq<Twist<F>>, m: int) -> F
    decreases m,
{
    if m <= 0 {
        crate::polynomial::eval_seq(message, y)
    } else {
        let t = twists[m - 1];
        twisted_value(message, y, twists, m - 1).add_spec(
            t.coefficient.mul_spec(message[t.hook as int]).mul_spec(
                y.pow_spec((message.len() - 1 + t.offset) as nat),
            ),
        )
    }
}

/// No surviving base coordinate is a pole of the net Möbius map.
pub open spec fn pole_free<F: Field>(d: CanonicalDescriptor<F>) -> bool {
    forall|i: int|
        0 <= i < d.base_length() && !d.punctures_view().contains(i as usize) ==> crate::mobius::denominator_at(
            d.mobius_view(),
            #[trigger] d.base_view().points_view()[i],
        ) != F::zero_spec()
}

/// Every base coordinate's symbol before puncturing: the multiplier times
/// the twisted message polynomial at the moved point.
pub open spec fn descriptor_symbols<F: Field>(d: CanonicalDescriptor<F>, message: Seq<F>) -> Seq<F> {
    let base = d.base_view();
    Seq::new(
        base.points_view().len(),
        |i: int|
            base.multipliers_view()[i].mul_spec(
                twisted_value(
                    message,
                    crate::mobius::apply_spec(d.mobius_view(), base.points_view()[i]).unwrap(),
                    d.twists_view(),
                    d.twists_view().len() as int,
                ),
            ),
    )
}

/// The extension coordinates `w_j · ⟨λ_j, f⟩`.
pub open spec fn descriptor_extensions<F: Field>(d: CanonicalDescriptor<F>, message: Seq<F>) -> Seq<F> {
    Seq::new(
        d.extends_view().len(),
        |j: int|
            d.extends_view()[j].1.mul_spec(
                crate::extend::dot(d.extends_view()[j].0, message, d.extends_view()[j].0.len() as int),
            ),
    )
}

/// The flat codeword of a descriptor: the surviving base coordinates in
/// ascending order, then the extension coordinates.
pub open spec fn descriptor_codeword<F: Field>(d: CanonicalDescriptor<F>, message: Seq<F>) -> Seq<F> {
    crate::puncture::surviving(
        descriptor_symbols(d, message),
        d.punctures_view(),
        d.base_view().points_view().len() as int,
    ) + descriptor_extensions(d, message)
}

/// The outcome of encoding `message` with descriptor `d` over a codeword
/// buffer that held `before` and holds `after`.
pub open spec fn encodes<F: Field>(
    d: CanonicalDescriptor<F>,
    message: Seq<F>,
    before: Seq<F>,
    after: Seq<F>,
    r: Result<(), Error>,
) -> bool {
    let k = d.base_view().dimension_view();
    &&& after.len() == before.len()
    &&& message.len() != k ==> r == Err::<(), Error>(
        Error::MessageLength { expected: k, got: message.len() as usize },
    ) && after == before
    &&& message.len() == k && before.len() != d.length_spec() ==> r == Err::<(), Error>(
        Error::CodewordLength { expected: d.length_spec() as usize, got: before.len() as usize },
    ) && after == before
    &&& message.len() == k && before.len() == d.length_spec() ==> {
        &&& r is Ok <==> pole_free(d)
        &&& r is Ok ==> after == descriptor_codeword(d, message)
        &&& r matches Err(e) ==> (e matches Error::MobiusPole { index } && {
            &&& index < d.base_length()
            &&& !d.punctures_view().contains(index)
            &&& crate::mobius::denominator_at(d.mobius_view(), d.base_view().points_view()[index as int])
                == F::zero_spec()
            &&& forall|i: int|
                0 <= i < index && !d.punctures_view().contains(i as usize)
                    ==> crate::mobius::denominator_at(
                    d.mobius_view(),
                    #[trigger] d.base_view().points_view()[i],
                ) != F::zero_spec()
            &&& ({
                let written = crate::puncture::surviving(
                    descriptor_symbols(d, message),
                    d.punctures_view(),
                    index as int,
                );
                after == written + before.subrange(written.len() as int, before.len() as int)
            })
        })
    }
}

impl<F: Field> CanonicalDescriptor<F> {
    /// Encode a `k`-symbol message into the flat one-row codeword.
    ///
    /// The codeword lists the surviving base coordinates in ascending index
    /// order — each the twisted message polynomial evaluated at the
    /// Möbius-moved point and scaled by the base multiplier — followed by the
    /// extension coordinates. A surviving coordinate at the pole of the net
    /// map is an error (earlier coordinates are already written).
    pub fn encode_into(&self, message: &[F], codeword: &mut [F]) -> (r: Result<(), Error>)
        requires
            self.wf(),
            seq_wf(message@),
        ensures
            encodes(*self, message@, old(codeword)@, final(codeword)@, r),
    {
        let k = self.base.dimension();
        if message.len() != k {
            return Err(Error::MessageLength { expected: k, got: message.len() });
        }
        let length = self.length();
        if codeword.len() != length {
            return Err(Error::CodewordLength { expected: length, got: codeword.len() });
        }
        let points = self.base.domain().points();
        let multipliers = self.base.multipliers();
        let n = points.len();
        let ghost symbols = descriptor_symbols(*self, message@);
        let ghost p = self.punctures@;
        proof {
            crate::puncture::lemma_surviving_len_pub(symbols, p, n as int);
            crate::puncture::lemma_count_all_pub(p, n as int);
        }
        let mut write: usize = 0;
        let mut index: usize = 0;
        while index < n
            invariant
                self.wf(),
                points@ == self.base_view().points_view(),
                multipliers@ == self.base_view().multipliers_view(),
                n == points@.len(),
                k == self.base_view().dimension_view(),
                message@.len() == k,
                seq_wf(message@),
                p == self.punctures_view(),
                codeword@.len() == length,
                length == self.length_spec(),
                index <= n,
                old(codeword)@.len() == length,
                symbols == descriptor_symbols(*self, message@),
                write == crate::puncture::surviving(symbols, p, index as int).len(),
                crate::puncture::surviving(symbols, p, n as int).len() == n - p.len(),
                forall|j: int| 0 <= j < write ==> #[trigger] codeword@[j] == crate::puncture::surviving(symbols, p, index as int)[j],
                forall|j: int| write <= j < length ==> #[trigger] codeword@[j] == old(codeword)@[j],
                forall|i: int|
                    0 <= i < index && !p.contains(i as usize) ==> crate::mobius::denominator_at(
                        self.mobius_view(),
                        #[trigger] points@[i],
                    ) != F::zero_spec(),
            decreases n - index,
        {
            proof {
                crate::puncture::lemma_surviving_prefix_len_pub(symbols, p, index as int + 1, n as int);
            }
            if crate::puncture::contains_index(self.punctures.as_slice(), index) {
                index += 1;
                continue;
            }
            proof {
                assert(points@[index as int].wf());
            }
            let moved = match self.mobius.apply(points[index]) {
                Some(moved) => moved,
                None => {
                    proof {
                        let written = crate::puncture::surviving(symbols, p, index as int);
                        assert(codeword@ =~= written + old(codeword)@.subrange(
                            written.len() as int,
                            old(codeword)@.len() as int,
                        ));
                    }
                    return Err(Error::MobiusPole { index });
                },
            };
            let mut value = crate::eval::horner(message, moved);
            let mut position: usize = 0;
            while position < self.twists.len()
                invariant
                    self.wf(),
                    k == self.base_view().dimension_view(),
                    message@.len() == k,
                    seq_wf(message@),
                    moved.wf(),
                    position <= self.twists@.len(),
                    value == twisted_value(message@, moved, self.twists@, position as int),
                    value.wf(),
                decreases self.twists@.len() - position,
            {
                let twist = self.twists[position];
                proof {
                    assert(twists_admissible(self.twists@, k, self.base_length() as usize));
                    assert(self.twists@[position as int] == twist);
                }
                let destination = k - 1 + twist.offset;
                let exponent = destination as u64;
                let contribution = twist.coefficient.mul(message[twist.hook]).mul(moved.pow(exponent));
                value = value.add(contribution);
                position += 1;
            }
            proof {
                assert(multipliers@[index as int].wf());
            }
            codeword[write] = multipliers[index].mul(value);
            write += 1;
            index += 1;
        }
        let ghost base_written = crate::puncture::surviving(symbols, p, n as int);
        let mut j: usize = 0;
        while j < self.extends.len()
            invariant
                self.wf(),
                k == self.base_view().dimension_view(),
                message@.len() == k,
                seq_wf(message@),
                codeword@.len() == length,
                old(codeword)@.len() == length,
                length == self.length_spec(),
                base_written.len() == n - p.len(),
                base_written == crate::puncture::surviving(descriptor_symbols(*self, message@), p, n as int),
                p == self.punctures_view(),
                n == self.base_length(),
                j <= self.extends@.len(),
                forall|q: int| 0 <= q < base_written.len() ==> #[trigger] codeword@[q] == base_written[q],
                forall|q: int|
                    0 <= q < j ==> #[trigger] codeword@[base_written.len() + q] == descriptor_extensions(*self, message@)[q],
            decreases self.extends@.len() - j,
        {
            let coord = &self.extends[j];
            proof {
                assert(self.extends_view()[j as int] == coord@);
            }
            let accumulator = crate::extend::dot_product(coord.functional.as_slice(), message);
            codeword[(n - self.punctures.len()) + j] = coord.multiplier.mul(accumulator);
            j += 1;
        }
        proof {
            let ext = descriptor_extensions(*self, message@);
            let full = descriptor_codeword(*self, message@);
            assert(full == base_written + ext);
            assert forall|q: int| 0 <= q < codeword@.len() implies codeword@[q] == full[q] by {
                if q < base_written.len() {
                    assert(codeword@[q] == base_written[q]);
                } else {
                    let r = q - base_written.len();
                    assert(codeword@[base_written.len() + r] == ext[r]);
                }
            }
            assert(codeword@ =~= full);
        }
        Ok(())
    }
}

} // verus!

verus! {

/// The bytes of a sequence of field elements, in order.
pub open spec fn elems_bytes<F: Field>(s: Seq<F>) -> Seq<u8>
    decreases s.len(),
{
    if s.len() == 0 {
        Seq::empty()
    } else {
        elems_bytes(s.drop_last()) + s.last().bytes_spec()
    }
}

/// Version, little-endian base-code ID, then the dimension.
pub open spec fn header_bytes(id: u64, dimension: usize) -> Seq<u8> {
    seq![DESCRIPTOR_VERSION] + u64_le_bytes(id) + leb128(dimension as nat)
}

/// A twist record: tag, offset, hook, coefficient.
pub open spec fn twist_record<F: Field>(t: Twist<F>) -> Seq<u8> {
    seq![TAG_TWIST] + leb128(t.offset as nat) + leb128(t.hook as nat) + t.coefficient.bytes_spec()
}

/// An extension record: tag, functional length, functional, multiplier.
pub open spec fn extend_record<F: Field>(functional: Seq<F>, multiplier: F) -> Seq<u8> {
    seq![TAG_EXTEND] + leb128(functional.len()) + elems_bytes(functional) + multiplier.bytes_spec()
}

/// The tagged record of one generator.
pub open spec fn op_bytes<F: Field>(op: OpView<F>) -> Seq<u8> {
    match op {
        OpView::Twist(t) => twist_record(t),
        OpView::Mobius(m) => seq![TAG_MOBIUS] + m.a.bytes_spec() + m.b.bytes_spec() + m.c.bytes_spec()
            + m.d.bytes_spec(),
        OpView::Puncture(index) => seq![TAG_PUNCTURE] + leb128(index as nat),
        OpView::Extend(functional, multiplier) => extend_record(functional, multiplier),
        OpView::Fold(m) => seq![TAG_FOLD] + leb128(m as nat),
        OpView::Interleave(order) => seq![TAG_INTERLEAVE] + leb128(order as nat),
    }
}

/// The records of the first `m` generators.
pub open spec fn ops_bytes<F: Field>(ops: Seq<OpView<F>>, m: int) -> Seq<u8>
    decreases m,
{
    if m <= 0 {
        Seq::empty()
    } else {
        ops_bytes(ops, m - 1) + op_bytes(ops[m - 1])
    }
}

/// The serialized word: header then one record per generator in order.
pub open spec fn word_bytes<F: Field>(base_id: u64, dimension: usize, ops: Seq<OpView<F>>) -> Seq<u8> {
    header_bytes(base_id, dimension) + ops_bytes(ops, ops.len() as int)
}

/// The twist records of the first `m` twists.
pub open spec fn twist_records<F: Field>(twists: Seq<Twist<F>>, m: int) -> Seq<u8>
    decreases m,
{
    if m <= 0 {
        Seq::empty()
    } else {
        twist_records(twists, m - 1) + twist_record(twists[m - 1])
    }
}

/// The puncture records of the first `m` indices.
pub open spec fn puncture_records(punctures: Seq<usize>, m: int) -> Seq<u8>
    decreases m,
{
    if m <= 0 {
        Seq::empty()
    } else {
        puncture_records(punctures, m - 1) + (seq![TAG_PUNCTURE] + leb128(punctures[m - 1] as nat))
    }
}

/// The extension records of the first `m` extensions.
pub open spec fn extend_records<F: Field>(extends: Seq<(Seq<F>, F)>, m: int) -> Seq<u8>
    decreases m,
{
    if m <= 0 {
        Seq::empty()
    } else {
        extend_records(extends, m - 1) + extend_record(extends[m - 1].0, extends[m - 1].1)
    }
}

/// The position of the first nonzero coefficient of `(a, b, c, d)`, or zero.
pub open spec fn pivot_position<F: Field>(m: MobiusMap<F>) -> nat {
    if m.a != F::zero_spec() {
        0
    } else if m.b != F::zero_spec() {
        1
    } else if m.c != F::zero_spec() {
        2
    } else if m.d != F::zero_spec() {
        3
    } else {
        0
    }
}

/// The coefficient of `(a, b, c, d)` at position `i`.
pub open spec fn mobius_entry<F: Field>(m: MobiusMap<F>, i: nat) -> F {
    if i == 0 {
        m.a
    } else if i == 1 {
        m.b
    } else if i == 2 {
        m.c
    } else {
        m.d
    }
}

/// The Möbius record names its pivot faithfully: the position in the tag's
/// high nibble holds a one in the normalized map and every earlier position
/// holds zero, so putting a one there and the three written coefficients in
/// the other slots rebuilds the normalized map.
pub proof fn law_mobius_record_pivot_is_the_leading_one<F: crate::field::FieldAxioms>(m: MobiusMap<F>)
    requires
        F::is_field(),
        m.wf(),
        !(m.a == F::zero_spec() && m.b == F::zero_spec() && m.c == F::zero_spec() && m.d
            == F::zero_spec()),
    ensures
        ({
            let n = crate::mobius::normalized_spec(m);
            let p = pivot_position(n);
            &&& p < 4
            &&& mobius_entry(n, p) == F::one_spec()
            &&& forall|i: nat| i < p ==> #[trigger] mobius_entry(n, i) == F::zero_spec()
        }),
{
    F::lemma_field_valid();
    let z = F::zero_spec();
    let pivot = crate::mobius::pivot_spec(m);
    F::lemma_closure(pivot, pivot);
    F::lemma_inverse(pivot);
    let inv = pivot.inverse_spec().unwrap();
    F::lemma_ring(inv, z, z);
    F::lemma_ring(z, inv, inv);
    let n = crate::mobius::normalized_spec(m);
    assert(pivot.mul_spec(inv) == F::one_spec());
    if m.a != z {
        assert(n.a == F::one_spec());
    } else if m.b != z {
        assert(n.a == z);
        assert(n.b == F::one_spec());
    } else if m.c != z {
        assert(n.a == z && n.b == z);
        assert(n.c == F::one_spec());
    } else {
        assert(n.a == z && n.b == z && n.c == z);
        assert(n.d == F::one_spec());
    }
}

/// The Möbius record of a descriptor: nothing for the identity; otherwise
/// the tag with the pivot position in its high nibble and the three
/// coefficients of the normalized map other than the pivot.
pub open spec fn mobius_record<F: Field>(m: MobiusMap<F>) -> Seq<u8> {
    if crate::mobius::normalized_spec(m) == crate::mobius::identity_spec::<F>() {
        Seq::empty()
    } else {
        let n = crate::mobius::normalized_spec(m);
        let pivot = pivot_position(n);
        seq![(TAG_MOBIUS + 16 * pivot) as u8] + (if pivot != 0 {
            n.a.bytes_spec()
        } else {
            Seq::empty()
        }) + (if pivot != 1 {
            n.b.bytes_spec()
        } else {
            Seq::empty()
        }) + (if pivot != 2 {
            n.c.bytes_spec()
        } else {
            Seq::empty()
        }) + (if pivot != 3 {
            n.d.bytes_spec()
        } else {
            Seq::empty()
        })
    }
}

/// A grouping record, present only for a value above one.
pub open spec fn grouping_record(tag: u8, value: usize) -> Seq<u8> {
    if value > 1 {
        seq![tag] + leb128(value as nat)
    } else {
        Seq::empty()
    }
}

/// The serialized descriptor in canonical axis order.
pub open spec fn descriptor_bytes<F: Field>(d: CanonicalDescriptor<F>) -> Seq<u8> {
    header_bytes(d.base_view().id_view(), d.base_view().dimension_view()) + twist_records(
        d.twists_view(),
        d.twists_view().len() as int,
    ) + mobius_record(d.mobius_view()) + puncture_records(
        d.punctures_view(),
        d.punctures_view().len() as int,
    ) + extend_records(d.extends_view(), d.extends_view().len() as int) + grouping_record(
        TAG_FOLD,
        d.fold_view(),
    ) + grouping_record(TAG_INTERLEAVE, d.interleave_view())
}

/// Append the bytes of every element of `values`.
fn push_elems<F: Field>(buffer: &mut Vec<u8>, values: &[F])
    ensures
        final(buffer)@ == old(buffer)@ + elems_bytes(values@),
{
    let ghost before = buffer@;
    let mut i: usize = 0;
    proof {
        assert(values@.subrange(0, 0) =~= Seq::<F>::empty());
        assert(before + elems_bytes(Seq::<F>::empty()) =~= before);
    }
    while i < values.len()
        invariant
            i <= values@.len(),
            buffer@ == before + elems_bytes(values@.subrange(0, i as int)),
        decreases values@.len() - i,
    {
        let ghost prior = buffer@;
        values[i].push_bytes(buffer);
        proof {
            let next = values@.subrange(0, i as int + 1);
            assert(next.drop_last() =~= values@.subrange(0, i as int));
            assert(next.last() == values@[i as int]);
            assert(buffer@ =~= before + elems_bytes(next));
        }
        i += 1;
    }
    proof {
        assert(values@.subrange(0, values@.len() as int) =~= values@);
    }
}

/// Append `[tag]`.
fn push_tag(buffer: &mut Vec<u8>, tag: u8)
    ensures
        final(buffer)@ == old(buffer)@ + seq![tag],
{
    let ghost before = buffer@;
    buffer.push(tag);
    proof {
        assert(buffer@ =~= before + seq![tag]);
    }
}

/// Append the version, the little-endian base ID and the dimension.
fn push_header(buffer: &mut Vec<u8>, id: u64, dimension: usize)
    requires
        old(buffer)@.len() == 0,
    ensures
        final(buffer)@ == header_bytes(id, dimension),
{
    push_tag(buffer, DESCRIPTOR_VERSION);
    push_u64_le(buffer, id);
    push_usize(buffer, dimension);
    proof {
        assert(buffer@ =~= header_bytes(id, dimension));
    }
}

/// Append a twist record.
fn push_twist_record<F: Field>(buffer: &mut Vec<u8>, twist: &Twist<F>)
    ensures
        final(buffer)@ == old(buffer)@ + twist_record(*twist),
{
    let ghost before = buffer@;
    push_tag(buffer, TAG_TWIST);
    push_usize(buffer, twist.offset);
    push_usize(buffer, twist.hook);
    twist.coefficient.push_bytes(buffer);
    proof {
        assert(buffer@ =~= before + twist_record(*twist));
    }
}

/// Append an extension record.
fn push_extend_record<F: Field>(buffer: &mut Vec<u8>, coord: &ExtendCoord<F>)
    ensures
        final(buffer)@ == old(buffer)@ + extend_record(coord@.0, coord@.1),
{
    let ghost before = buffer@;
    push_tag(buffer, TAG_EXTEND);
    push_usize(buffer, coord.functional.len());
    push_elems(buffer, coord.functional.as_slice());
    coord.multiplier.push_bytes(buffer);
    proof {
        assert(buffer@ =~= before + extend_record(coord@.0, coord@.1));
    }
}

impl<F: Field> TransformWord<F> {
    /// The serialized word bytes: version, base-code ID, dimension, then one
    /// tagged record per generator in word order.
    pub fn to_bytes(&self) -> (r: Vec<u8>)
        ensures
            r@ == word_bytes(self.base_view().id_view(), self.base_view().dimension_view(), self.ops_view()),
    {
        let mut buffer: Vec<u8> = Vec::new();
        push_header(&mut buffer, self.base.id(), self.base.dimension());
        let ghost header = buffer@;
        let ghost ops = self.ops_view();
        let mut index: usize = 0;
        while index < self.ops.len()
            invariant
                ops == self.ops_view(),
                ops.len() == self.ops@.len(),
                index <= ops.len(),
                header == header_bytes(self.base_view().id_view(), self.base_view().dimension_view()),
                buffer@ == header + ops_bytes(ops, index as int),
            decreases ops.len() - index,
        {
            let ghost prior = buffer@;
            proof {
                assert(ops[index as int] == self.ops@[index as int]@);
            }
            match &self.ops[index] {
                TransformOp::Twist(twist) => {
                    push_twist_record(&mut buffer, twist);
                },
                TransformOp::Mobius(map) => {
                    push_tag(&mut buffer, TAG_MOBIUS);
                    map.a.push_bytes(&mut buffer);
                    map.b.push_bytes(&mut buffer);
                    map.c.push_bytes(&mut buffer);
                    map.d.push_bytes(&mut buffer);
                },
                TransformOp::Puncture(position) => {
                    push_tag(&mut buffer, TAG_PUNCTURE);
                    push_usize(&mut buffer, *position);
                },
                TransformOp::Extend(coord) => {
                    push_extend_record(&mut buffer, coord);
                },
                TransformOp::Fold(m) => {
                    push_tag(&mut buffer, TAG_FOLD);
                    push_usize(&mut buffer, *m);
                },
                TransformOp::Interleave(order) => {
                    push_tag(&mut buffer, TAG_INTERLEAVE);
                    push_usize(&mut buffer, *order);
                },
            }
            proof {
                assert(buffer@ =~= prior + op_bytes(ops[index as int]));
                assert(header + ops_bytes(ops, index as int + 1) =~= prior + op_bytes(ops[index as int]));
            }
            index += 1;
        }
        buffer
    }

    /// The serialized word length in bytes.
    pub fn serialized_len(&self) -> (r: usize)
        ensures
            r == word_bytes(self.base_view().id_view(), self.base_view().dimension_view(), self.ops_view()).len(),
    {
        self.to_bytes().len()
    }
}

impl<F: Field> CanonicalDescriptor<F> {
    /// The serialized descriptor bytes in canonical axis order: version,
    /// base-code ID, dimension, merged twists, the scale-normalized net Möbius
    /// (only when it is not the identity: the pivot position in the tag's high
    /// nibble plus the three other coefficients), net punctures, extensions,
    /// and the fold and interleave numbers (only when greater than one).
    pub fn to_bytes(&self) -> (r: Vec<u8>)
        requires
            self.wf(),
        ensures
            r@ == descriptor_bytes(*self),
    {
        let mut buffer: Vec<u8> = Vec::new();
        push_header(&mut buffer, self.base.id(), self.base.dimension());
        let mut index: usize = 0;
        while index < self.twists.len()
            invariant
                index <= self.twists@.len(),
                buffer@ == header_bytes(self.base_view().id_view(), self.base_view().dimension_view())
                    + twist_records(self.twists@, index as int),
            decreases self.twists@.len() - index,
        {
            let ghost prior = buffer@;
            push_twist_record(&mut buffer, &self.twists[index]);
            proof {
                assert(buffer@ =~= header_bytes(self.base_view().id_view(), self.base_view().dimension_view())
                    + twist_records(self.twists@, index as int + 1));
            }
            index += 1;
        }
        let ghost after_twists = buffer@;
        if !self.mobius.is_identity() {
            let normalized = self.mobius.normalized();
            proof {
                F::lemma_closure(self.mobius.a, self.mobius.a);
            }
            let pivot: u8 = if !normalized.a.is_zero() {
                0
            } else if !normalized.b.is_zero() {
                1
            } else if !normalized.c.is_zero() {
                2
            } else if !normalized.d.is_zero() {
                3
            } else {
                0
            };
            let tag = TAG_MOBIUS | (pivot << 4);
            proof {
                assert(pivot < 4);
                assert((2u8 | (pivot << 4u8)) == 2 + 16 * pivot) by (bit_vector)
                    requires
                        pivot < 4,
                ;
                assert(pivot == pivot_position(normalized));
            }
            push_tag(&mut buffer, tag);
            let ghost after_tag = buffer@;
            if pivot != 0 {
                normalized.a.push_bytes(&mut buffer);
            }
            let ghost after_a = buffer@;
            if pivot != 1 {
                normalized.b.push_bytes(&mut buffer);
            }
            let ghost after_b = buffer@;
            if pivot != 2 {
                normalized.c.push_bytes(&mut buffer);
            }
            let ghost after_c = buffer@;
            if pivot != 3 {
                normalized.d.push_bytes(&mut buffer);
            }
            proof {
                assert(after_a =~= after_tag + (if pivot != 0 {
                    normalized.a.bytes_spec()
                } else {
                    Seq::empty()
                }));
                assert(after_b =~= after_a + (if pivot != 1 {
                    normalized.b.bytes_spec()
                } else {
                    Seq::empty()
                }));
                assert(after_c =~= after_b + (if pivot != 2 {
                    normalized.c.bytes_spec()
                } else {
                    Seq::empty()
                }));
                assert(buffer@ =~= after_c + (if pivot != 3 {
                    normalized.d.bytes_spec()
                } else {
                    Seq::empty()
                }));
                assert(buffer@ =~= after_twists + mobius_record(self.mobius));
            }
        } else {
            proof {
                assert(buffer@ =~= after_twists + mobius_record(self.mobius));
            }
        }
        let ghost after_mobius = buffer@;
        let mut index: usize = 0;
        while index < self.punctures.len()
            invariant
                index <= self.punctures@.len(),
                buffer@ == after_mobius + puncture_records(self.punctures@, index as int),
            decreases self.punctures@.len() - index,
        {
            let ghost prior = buffer@;
            push_tag(&mut buffer, TAG_PUNCTURE);
            push_usize(&mut buffer, self.punctures[index]);
            proof {
                assert(buffer@ =~= after_mobius + puncture_records(self.punctures@, index as int + 1));
            }
            index += 1;
        }
        let ghost after_punctures = buffer@;
        let mut index: usize = 0;
        while index < self.extends.len()
            invariant
                index <= self.extends@.len(),
                buffer@ == after_punctures + extend_records(self.extends_view(), index as int),
            decreases self.extends@.len() - index,
        {
            proof {
                assert(self.extends_view()[index as int] == self.extends@[index as int]@);
            }
            push_extend_record(&mut buffer, &self.extends[index]);
            proof {
                assert(buffer@ =~= after_punctures + extend_records(self.extends_view(), index as int + 1));
            }
            index += 1;
        }
        let ghost after_extends = buffer@;
        if self.fold > 1 {
            push_tag(&mut buffer, TAG_FOLD);
            push_usize(&mut buffer, self.fold);
        }
        proof {
            assert(buffer@ =~= after_extends + grouping_record(TAG_FOLD, self.fold));
        }
        let ghost after_fold = buffer@;
        if self.interleave > 1 {
            push_tag(&mut buffer, TAG_INTERLEAVE);
            push_usize(&mut buffer, self.interleave);
        }
        proof {
            assert(buffer@ =~= after_fold + grouping_record(TAG_INTERLEAVE, self.interleave));
            assert(buffer@ =~= descriptor_bytes(*self));
        }
        buffer
    }

    /// The serialized descriptor length in bytes.
    pub fn serialized_len(&self) -> (r: usize)
        requires
            self.wf(),
        ensures
            r == descriptor_bytes(*self).len(),
    {
        self.to_bytes().len()
    }
}

} // verus!

verus! {

impl<F: Field> TransformWord<F> {
    /// Encode a message by first reducing the word, then encoding from the
    /// descriptor.
    pub fn encode_into(&self, message: &[F], codeword: &mut [F]) -> (r: Result<(), Error>)
        requires
            self.wf(),
            seq_wf(message@),
        ensures
            self.run() matches Err(e) ==> r == Err::<(), Error>(e) && final(codeword)@ == old(codeword)@,
            self.run() matches Ok(s) ==> {
                let k = self.base_view().dimension_view();
                let n = self.base_view().points_view().len() as usize;
                &&& finish_error(s, k, n) matches Some(e) ==> r == Err::<(), Error>(e) && final(codeword)@
                    == old(codeword)@
                &&& finish_error(s, k, n) is None ==> exists|d: CanonicalDescriptor<F>|
                    self.reduces_to(s, d) && encodes(d, message@, old(codeword)@, final(codeword)@, r)
            },
    {
        let descriptor = match self.normalize() {
            Ok(descriptor) => descriptor,
            Err(e) => {
                return Err(e);
            },
        };
        descriptor.encode_into(message, codeword)
    }
}

/// No puncture, extension, fold or interleave: the reduced code is one
/// (twisted) GRS code on the moved points.
pub open spec fn is_plain<F: Field>(d: CanonicalDescriptor<F>) -> bool {
    d.punctures_view().len() == 0 && d.extends_view().len() == 0 && d.fold_view() == 1
        && d.interleave_view() == 1
}

impl<F: Field> CanonicalDescriptor<F> {
    /// Rebuild the ambient TGRS code for descriptor states whose full reduction
    /// is exactly one GRS/TGRS code: no puncture, extension, fold, or
    /// interleave.
    ///
    /// The net Möbius is absorbed into the moved domain and the merged twist
    /// program is retained. Returns `Ok(None)` when domain membership or
    /// grouping requires a different concrete code.
    pub fn ambient_tgrs_code(&self) -> (r: Result<Option<TgrsCode<F>>, Error>)
        requires
            self.wf(),
        ensures
            !is_plain(*self) ==> r matches Ok(None),
            is_plain(*self) ==> {
                let points = self.base_view().points_view();
                let moved = crate::mobius::moved_spec(self.mobius_view(), points);
                let k = self.base_view().dimension_view();
                &&& !pole_free(*self) ==> (r matches Err(Error::MobiusPole { index }) && {
                    &&& index < points.len()
                    &&& crate::mobius::denominator_at(self.mobius_view(), points[index as int]) == F::zero_spec()
                    &&& forall|i: int|
                        0 <= i < index ==> crate::mobius::denominator_at(
                            self.mobius_view(),
                            #[trigger] points[i],
                        ) != F::zero_spec()
                })
                &&& pole_free(*self) && !distinct(moved) ==> (r matches Err(Error::Domain(DomainError::DuplicatePoint { .. })))
                &&& pole_free(*self) && distinct(moved) ==> {
                    &&& r is Ok <==> crate::code::tgrs_error(
                        points.len() as usize,
                        self.base_view().multipliers_view(),
                        k,
                        self.twists_view(),
                    ) is None
                    &&& r matches Err(e) ==> crate::code::tgrs_error(
                        points.len() as usize,
                        self.base_view().multipliers_view(),
                        k,
                        self.twists_view(),
                    ) == Some(e)
                    &&& r matches Ok(Some(code)) ==> {
                        &&& code.wf()
                        &&& code.points_view() == moved
                        &&& code.multipliers_view() == self.base_view().multipliers_view()
                        &&& code.dimension_view() == k
                        &&& code.twists_view() == self.twists_view()
                    }
                    &&& r is Ok ==> (r matches Ok(Some(_)))
                }
            },
    {
        if self.punctures.len() != 0 || self.extends.len() != 0 || self.fold != 1 || self.interleave != 1 {
            return Ok(None);
        }
        proof {
            assert(is_plain(*self));
        }
        let points = self.base.domain().points();
        let n = points.len();
        let mut moved: Vec<F> = Vec::with_capacity(n);
        let mut index: usize = 0;
        while index < n
            invariant
                self.wf(),
                is_plain(*self),
                points@ == self.base_view().points_view(),
                n == points@.len(),
                index <= n,
                moved@ == crate::mobius::moved_spec(self.mobius_view(), points@).subrange(0, index as int),
                seq_wf(moved@),
                forall|i: int|
                    0 <= i < index ==> crate::mobius::denominator_at(self.mobius_view(), #[trigger] points@[i])
                        != F::zero_spec(),
            decreases n - index,
        {
            proof {
                assert(points@[index as int].wf());
            }
            match self.mobius.apply(points[index]) {
                Some(image) => {
                    moved.push(image);
                    proof {
                        assert(moved@ =~= crate::mobius::moved_spec(self.mobius_view(), points@).subrange(
                            0,
                            index + 1,
                        ));
                    }
                },
                None => {
                    proof {
                        assert(!pole_free(*self)) by {
                            assert(!self.punctures_view().contains(index));
                        }
                    }
                    return Err(Error::MobiusPole { index });
                },
            }
            index += 1;
        }
        proof {
            assert(moved@ =~= crate::mobius::moved_spec(self.mobius_view(), points@));
            assert(pole_free(*self));
        }
        let domain = match EvaluationDomain::arbitrary(moved) {
            Ok(domain) => domain,
            Err(e) => {
                return Err(Error::Domain(e));
            },
        };
        let multipliers = copy_elements(self.base.multipliers());
        let mut twists: Vec<Twist<F>> = Vec::with_capacity(self.twists.len());
        let mut position: usize = 0;
        while position < self.twists.len()
            invariant
                position <= self.twists@.len(),
                twists@ == self.twists@.subrange(0, position as int),
            decreases self.twists@.len() - position,
        {
            twists.push(self.twists[position]);
            proof {
                assert(twists@ =~= self.twists@.subrange(0, position + 1));
            }
            position += 1;
        }
        proof {
            assert(twists@ =~= self.twists@);
            assert(crate::code::twists_wf(twists@)) by {
                let k = self.base_view().dimension_view();
                assert forall|i: int| 0 <= i < twists@.len() implies (#[trigger] twists@[i]).coefficient.wf() by {
                    assert(twists_admissible(self.twists@, k, self.base_length() as usize));
                }
            }
        }
        match TgrsCode::new(domain, multipliers, self.base.dimension(), twists) {
            Ok(code) => Ok(Some(code)),
            Err(e) => Err(e),
        }
    }
}

} // verus!
