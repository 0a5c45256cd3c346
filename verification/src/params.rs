use vstd::prelude::*;
use crate::error::ExPoppyError;

verus! {

/// The format version that `new` asks for.
pub const DEFAULT_VERSION: u8 = 2;

/// Bit pattern of the smallest positive normal double.
pub const RATE_FLOOR: u64 = 0x0010_0000_0000_0000;

/// Bit pattern of the double `1.0`.
pub const RATE_ONE: u64 = 0x3FF0_0000_0000_0000;

/// The highest variant tag.
pub const MAX_VARIANT_TAG: u8 = 3;

/// Whether `bits` is the bit pattern of a double strictly between zero and
/// one. Positive doubles are ordered as their bit patterns are, so this is a
/// comparison of integers.
pub open spec fn valid_rate(bits: u64) -> bool {
    0 < bits < RATE_ONE
}

/// Whether `bits` is a rate that the engine sizes a filter for: a valid rate
/// that is a normal double.
pub open spec fn engine_rate(bits: u64) -> bool {
    RATE_FLOOR <= bits < RATE_ONE
}

/// Whether the engine implements format version `version`.
pub open spec fn supported_version(version: u8) -> bool {
    version == 1 || version == 2
}

/// How the engine lays a filter out.
#[derive(Debug, Clone, Copy, PartialEq, Eq, Structural)]
pub enum Variant {
    /// No optimisation.
    Plain,
    /// Optimised for size.
    Space,
    /// Optimised for lookup speed, at the cost of size.
    Speed,
    /// The best of both the engine can do.
    Best,
}

impl Variant {
    /// The variant that `tag` names, if it names one.
    pub open spec fn spec_from_tag(tag: u8) -> Option<Variant> {
        if tag == 0 {
            Some(Variant::Plain)
        } else if tag == 1 {
            Some(Variant::Space)
        } else if tag == 2 {
            Some(Variant::Speed)
        } else if tag == 3 {
            Some(Variant::Best)
        } else {
            None
        }
    }

    /// The tag that names this variant.
    pub open spec fn spec_tag(self) -> u8 {
        match self {
            Variant::Plain => 0,
            Variant::Space => 1,
            Variant::Speed => 2,
            Variant::Best => 3,
        }
    }

    /// The variant that a tag of at most 3 names.
    pub fn of_tag(tag: u8) -> (v: Variant)
        requires
            tag <= MAX_VARIANT_TAG,
        ensures
            v.spec_tag() == tag,
            Variant::spec_from_tag(tag) == Some(v),
    {
        if tag == 0 {
            Variant::Plain
        } else if tag == 1 {
            Variant::Space
        } else if tag == 2 {
            Variant::Speed
        } else {
            Variant::Best
        }
    }

    /// Reads a variant tag.
    pub fn from_tag(tag: u8) -> (r: Result<Variant, ExPoppyError>)
        ensures
            r == match Variant::spec_from_tag(tag) {
                Some(v) => Ok::<Variant, ExPoppyError>(v),
                None => Err(ExPoppyError::InvalidVariant(tag)),
            },
            r is Ok <==> tag <= MAX_VARIANT_TAG,
    {
        if tag <= MAX_VARIANT_TAG {
            Ok(Variant::of_tag(tag))
        } else {
            Err(ExPoppyError::InvalidVariant(tag))
        }
    }

    /// The tag of this variant.
    pub fn tag(&self) -> (t: u8)
        ensures
            t == self.spec_tag(),
            t <= MAX_VARIANT_TAG,
            Variant::spec_from_tag(t) == Some(*self),
    {
        match self {
            Variant::Plain => 0,
            Variant::Space => 1,
            Variant::Speed => 2,
            Variant::Best => 3,
        }
    }
}

/// An accepted construction request.
#[derive(Debug, Clone, Copy, PartialEq, Eq, Structural)]
pub struct Params {
    /// The format version, 1 or 2.
    pub version: u8,
    /// The number of entries to size the filter for, at least 1.
    pub capacity: usize,
    /// The false-positive rate, as the bit pattern of its double.
    pub rate_bits: u64,
    /// The layout variant.
    pub variant: Variant,
}

impl Params {
    /// What every accepted request satisfies.
    pub open spec fn wf(self) -> bool {
        &&& supported_version(self.version)
        &&& self.capacity >= 1
        &&& valid_rate(self.rate_bits)
    }
}

/// Why a request is refused, or `None` if it is accepted. The variant tag is
/// looked at first, then the version, then capacity and rate.
pub open spec fn request_fault(version: u8, capacity: usize, rate_bits: u64, tag: u8) -> Option<
    ExPoppyError,
> {
    if tag > MAX_VARIANT_TAG {
        Some(ExPoppyError::InvalidVariant(tag))
    } else if !supported_version(version) {
        Some(ExPoppyError::UnsupportedVersion(version))
    } else if capacity == 0 || !valid_rate(rate_bits) {
        Some(ExPoppyError::InvalidParameter)
    } else {
        None
    }
}

/// What `with_params` returns.
pub open spec fn resolve(version: u8, capacity: usize, rate_bits: u64, tag: u8) -> Result<
    Params,
    ExPoppyError,
> {
    match request_fault(version, capacity, rate_bits, tag) {
        Some(e) => Err(e),
        None => Ok(
            Params { version, capacity, rate_bits, variant: Variant::spec_from_tag(tag)->Some_0 },
        ),
    }
}

/// Tells whether `bits` is the bit pattern of a valid rate.
pub fn is_valid_rate(bits: u64) -> (b: bool)
    ensures
        b == valid_rate(bits),
{
    0 < bits && bits < RATE_ONE
}

/// Tells whether `bits` is a rate that the engine sizes a filter for.
pub fn is_engine_rate(bits: u64) -> (b: bool)
    ensures
        b == engine_rate(bits),
{
    RATE_FLOOR <= bits && bits < RATE_ONE
}

/// Resolves a request for a filter of the default version and the plain
/// variant, for `capacity` entries at the rate whose bit pattern is `rate_bits`.
pub fn new(capacity: usize, rate_bits: u64) -> (r: Result<Params, ExPoppyError>)
    ensures
        r == resolve(DEFAULT_VERSION, capacity, rate_bits, 0),
        r is Ok <==> capacity >= 1 && valid_rate(rate_bits),
        r is Err ==> r == Err::<Params, ExPoppyError>(ExPoppyError::InvalidParameter),
        r matches Ok(p) ==> p.wf(),
{
    with_params(DEFAULT_VERSION, capacity, rate_bits, 0)
}

/// Resolves a request for a filter of format version `version` and the plain
/// variant.
pub fn with_version(version: u8, capacity: usize, rate_bits: u64) -> (r: Result<
    Params,
    ExPoppyError,
>)
    ensures
        r == resolve(version, capacity, rate_bits, 0),
        r is Ok <==> supported_version(version) && capacity >= 1 && valid_rate(rate_bits),
        r matches Ok(p) ==> p.wf(),
{
    with_params(version, capacity, rate_bits, 0)
}

/// Resolves a request that names all four parameters. A request is accepted if
/// and only if `tag` is at most 3, `version` is 1 or 2, `capacity` is at least 1
/// and `rate_bits` is a valid rate; the accepted request holds the four values
/// unchanged.
pub fn with_params(version: u8, capacity: usize, rate_bits: u64, tag: u8) -> (r: Result<
    Params,
    ExPoppyError,
>)
    ensures
        r == resolve(version, capacity, rate_bits, tag),
        r is Ok <==> tag <= MAX_VARIANT_TAG && supported_version(version) && capacity >= 1
            && valid_rate(rate_bits),
        r matches Ok(p) ==> p.wf() && p.version == version && p.capacity == capacity
            && p.rate_bits == rate_bits && p.variant.spec_tag() == tag,
{
    let variant = match Variant::from_tag(tag) {
        Ok(v) => v,
        Err(e) => {
            return Err(e);
        },
    };
    if version != 1 && version != 2 {
        return Err(ExPoppyError::UnsupportedVersion(version));
    }
    if capacity == 0 || !is_valid_rate(rate_bits) {
        return Err(ExPoppyError::InvalidParameter);
    }
    Ok(Params { version, capacity, rate_bits, variant })
}

} // verus!
