//! The plan behind the URC derive: which enums it refuses, and for each
//! variant how a URC line is turned into it and how the variant's URC is
//! recognised in the receive buffer.
use vstd::prelude::*;

verus! {

/// The fields of an enum variant, as the derive sees them.
#[derive(Clone, Copy, Debug, PartialEq, Eq, Structural)]
pub enum VariantShape {
    /// Named fields, `Variant { .. }`.
    Named,
    /// This many unnamed fields, `Variant(..)`.
    Unnamed(usize),
    /// No fields.
    Unit,
    /// No field list could be read.
    Unknown,
}

/// A variant of a URC enum, as the derive sees it.
#[derive(Clone, Copy, Debug, PartialEq, Eq, Structural)]
pub struct UrcVariant {
    /// Whether the variant carries `#[at_urc(..)]`.
    pub has_at_urc: bool,
    pub shape: VariantShape,
    /// Whether the attribute names a custom digest function.
    pub has_digest: bool,
    /// Whether the attribute names a custom parser.
    pub has_parse: bool,
}

/// Why the derive refuses an enum; the index names the variant.
#[derive(Clone, Copy, Debug, PartialEq, Eq, Structural)]
pub enum UrcProblem {
    /// The enum has no variants.
    NoVariants,
    /// The variant lacks `#[at_urc(..)]`.
    MissingAttribute(usize),
    /// The variant has named fields.
    NamedFields(usize),
    /// The variant has an empty field list.
    NoField(usize),
    /// The variant has more than one field.
    ExtraFields(usize),
    /// The variant's fields could not be read.
    UnknownFields(usize),
}

/// How the generated `parse` builds the variant from a URC line.
#[derive(Clone, Copy, Debug, PartialEq, Eq, Structural)]
pub enum Dispatch {
    /// The line's code alone gives the variant.
    Unit,
    /// The line is deserialized into the variant's one field.
    Parsed,
}

/// How the generated digester recognises the variant's URC.
#[derive(Clone, Copy, Debug, PartialEq, Eq, Structural)]
pub enum DigestWith {
    /// With the digest function the attribute names.
    CustomDigest,
    /// With the parser the attribute names, applied to the code.
    CustomParser,
    /// With the default URC helper, applied to the code.
    DefaultHelper,
}

/// What the derive generates for one variant.
#[derive(Clone, Copy, Debug, PartialEq, Eq, Structural)]
pub struct UrcArm {
    pub dispatch: Dispatch,
    pub digest: DigestWith,
}

/// What, if anything, the derive refuses in the variant at index `i`: a
/// missing attribute first, then a field list it cannot handle.
pub open spec fn variant_problem(v: UrcVariant, i: usize) -> Option<UrcProblem> {
    if !v.has_at_urc {
        Some(UrcProblem::MissingAttribute(i))
    } else {
        match v.shape {
            VariantShape::Named => Some(UrcProblem::NamedFields(i)),
            VariantShape::Unnamed(n) => if n == 0 {
                Some(UrcProblem::NoField(i))
            } else if n > 1 {
                Some(UrcProblem::ExtraFields(i))
            } else {
                None
            },
            VariantShape::Unit => None,
            VariantShape::Unknown => Some(UrcProblem::UnknownFields(i)),
        }
    }
}

/// The derive accepts every variant.
pub open spec fn urc_accepted(variants: Seq<UrcVariant>) -> bool {
    &&& variants.len() > 0
    &&& forall|i: int| 0 <= i < variants.len() ==> variant_problem(#[trigger] variants[i], i as usize) is None
}

/// What the derive generates for an accepted variant: a unit variant is
/// built from its code, a one-field variant parsed; a custom digest function
/// wins over a custom parser, which wins over the default helper.
pub open spec fn spec_arm(v: UrcVariant) -> UrcArm {
    UrcArm {
        dispatch: if v.shape is Unit {
            Dispatch::Unit
        } else {
            Dispatch::Parsed
        },
        digest: if v.has_digest {
            DigestWith::CustomDigest
        } else if v.has_parse {
            DigestWith::CustomParser
        } else {
            DigestWith::DefaultHelper
        },
    }
}

/// What the derive refuses in one variant.
fn problem_in(v: &UrcVariant, i: usize) -> (p: Option<UrcProblem>)
    ensures
        p == variant_problem(*v, i),
{
    if !v.has_at_urc {
        return Some(UrcProblem::MissingAttribute(i));
    }
    match v.shape {
        VariantShape::Named => Some(UrcProblem::NamedFields(i)),
        VariantShape::Unnamed(n) => if n == 0 {
            Some(UrcProblem::NoField(i))
        } else if n > 1 {
            Some(UrcProblem::ExtraFields(i))
        } else {
            None
        },
        VariantShape::Unit => None,
        VariantShape::Unknown => Some(UrcProblem::UnknownFields(i)),
    }
}

/// The first thing the derive refuses in an enum with `variants`, looking
/// at the variants in order; `None` when it accepts them all.
pub fn urc_problem(variants: &Vec<UrcVariant>) -> (p: Option<UrcProblem>)
    ensures
        p is None <==> urc_accepted(variants@),
        variants@.len() == 0 ==> p == Some(UrcProblem::NoVariants),
        p is Some && variants@.len() > 0 ==> exists|i: int|
            0 <= i < variants@.len() && variant_problem(#[trigger] variants@[i], i as usize) == p
                && forall|j: int| 0 <= j < i ==> variant_problem(#[trigger] variants@[j], j as usize) is None,
{
    if variants.len() == 0 {
        return Some(UrcProblem::NoVariants);
    }
    let mut i: usize = 0;
    while i < variants.len()
        invariant
            i <= variants@.len(),
            forall|j: int| 0 <= j < i ==> variant_problem(#[trigger] variants@[j], j as usize) is None,
        decreases variants@.len() - i,
    {
        let p = problem_in(&variants[i], i);
        if p.is_some() {
            assert(variant_problem(variants@[i as int], i) == p);
            return p;
        }
        i = i + 1;
    }
    None
}

/// Plans the URC derive for an enum whose variants it accepts: one arm per
/// variant, in order.
pub fn plan_urc(variants: &Vec<UrcVariant>) -> (arms: Vec<UrcArm>)
    requires
        urc_accepted(variants@),
    ensures
        arms@.len() == variants@.len(),
        forall|i: int| 0 <= i < arms@.len() ==> #[trigger] arms@[i] == spec_arm(variants@[i]),
        forall|i: int| 0 <= i < arms@.len() ==> {
            &&& (variants@[i].has_digest ==> #[trigger] arms@[i].digest == DigestWith::CustomDigest)
            &&& (!variants@[i].has_digest && variants@[i].has_parse ==> arms@[i].digest == DigestWith::CustomParser)
            &&& (!variants@[i].has_digest && !variants@[i].has_parse ==> arms@[i].digest == DigestWith::DefaultHelper)
            &&& (variants@[i].shape is Unit ==> arms@[i].dispatch == Dispatch::Unit)
            &&& (variants@[i].shape is Unnamed ==> arms@[i].dispatch == Dispatch::Parsed)
        },
{
    let mut arms: Vec<UrcArm> = Vec::new();
    let mut i: usize = 0;
    while i < variants.len()
        invariant
            i <= variants@.len(),
            arms@.len() == i,
            forall|j: int| 0 <= j < i ==> #[trigger] arms@[j] == spec_arm(variants@[j]),
        decreases variants@.len() - i,
    {
        let v = &variants[i];
        let dispatch = match v.shape {
            VariantShape::Unit => Dispatch::Unit,
            _ => Dispatch::Parsed,
        };
        let digest = if v.has_digest {
            DigestWith::CustomDigest
        } else if v.has_parse {
            DigestWith::CustomParser
        } else {
            DigestWith::DefaultHelper
        };
        arms.push(UrcArm { dispatch, digest });
        i = i + 1;
    }
    arms
}

/// The digest arm follows the attribute: a named digest function is used
/// whenever there is one, a named parser only when there is no digest
/// function, and the default helper when neither is named. A unit variant is
/// built from its code alone, a variant with a field by parsing the line.
pub proof fn lemma_arm_follows_attribute(v: UrcVariant)
    ensures
        v.has_digest ==> spec_arm(v).digest == DigestWith::CustomDigest,
        !v.has_digest && v.has_parse ==> spec_arm(v).digest == DigestWith::CustomParser,
        !v.has_digest && !v.has_parse ==> spec_arm(v).digest == DigestWith::DefaultHelper,
        v.shape is Unit ==> spec_arm(v).dispatch == Dispatch::Unit,
        v.shape is Unnamed ==> spec_arm(v).dispatch == Dispatch::Parsed,
{
}

/// A variant is refused for a missing attribute before anything else; with
/// the attribute, a unit variant and a variant of exactly one unnamed field
/// are accepted, and every other field list is refused with its own reason.
pub proof fn lemma_variant_problem_by_shape(v: UrcVariant, i: usize)
    ensures
        !v.has_at_urc ==> variant_problem(v, i) == Some(UrcProblem::MissingAttribute(i)),
        v.has_at_urc && v.shape == VariantShape::Unit ==> variant_problem(v, i) is None,
        v.has_at_urc && v.shape == VariantShape::Unnamed(1) ==> variant_problem(v, i) is None,
        v.has_at_urc && v.shape == VariantShape::Unnamed(0) ==> variant_problem(v, i) == Some(
            UrcProblem::NoField(i),
        ),
        v.has_at_urc && (v.shape matches VariantShape::Unnamed(n) && n > 1) ==> variant_problem(v, i)
            == Some(UrcProblem::ExtraFields(i)),
        v.has_at_urc && v.shape == VariantShape::Named ==> variant_problem(v, i) == Some(
            UrcProblem::NamedFields(i),
        ),
        v.has_at_urc && v.shape == VariantShape::Unknown ==> variant_problem(v, i) == Some(
            UrcProblem::UnknownFields(i),
        ),
{
}

} // verus!
