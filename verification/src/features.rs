//! Writer feature vocabulary: a small set of optional archive capabilities
//! that option checks can reason about.

use vstd::prelude::*;

verus! {

/// An optional archive capability.
#[derive(Clone, Copy, Debug, PartialEq, Eq, Hash, Structural)]
#[non_exhaustive]
pub enum Feature {
    /// Solid compression (members share one LZ window).
    Solid,
    /// Header encryption: the block stream after the per-volume plaintext
    /// header is encrypted.
    HeaderEncryption,
    /// Quick-open record.
    QuickOpen,
}

impl Feature {
    /// All features.
    pub const ALL: [Feature; 3] = [Feature::Solid, Feature::HeaderEncryption, Feature::QuickOpen];

    /// Stable machine-readable name.
    pub open spec fn spec_name(self) -> Seq<char> {
        match self {
            Feature::Solid => "solid"@,
            Feature::HeaderEncryption => "header_encryption"@,
            Feature::QuickOpen => "quick_open"@,
        }
    }

    /// Stable machine-readable name.
    pub fn name(self) -> (s: &'static str)
        ensures
            s@ == self.spec_name(),
    {
        match self {
            Feature::Solid => "solid",
            Feature::HeaderEncryption => "header_encryption",
            Feature::QuickOpen => "quick_open",
        }
    }
}

/// The features a writer uses.
#[derive(Clone, Copy, Debug, PartialEq, Eq, Structural)]
pub struct FeatureSet {
    pub solid: bool,
    pub header_encryption: bool,
    pub quick_open: bool,
}

impl Default for FeatureSet {
    fn default() -> (r: FeatureSet)
        ensures
            forall|f: Feature| !r.spec_contains(f),
    {
        FeatureSet { solid: false, header_encryption: false, quick_open: false }
    }
}

impl FeatureSet {
    /// Whether `feature` is in the set.
    pub open spec fn spec_contains(self, feature: Feature) -> bool {
        match feature {
            Feature::Solid => self.solid,
            Feature::HeaderEncryption => self.header_encryption,
            Feature::QuickOpen => self.quick_open,
        }
    }

    /// The features of a plain stored archive: none.
    pub fn store_only() -> (r: FeatureSet)
        ensures
            forall|f: Feature| !r.spec_contains(f),
    {
        FeatureSet { solid: false, header_encryption: false, quick_open: false }
    }

    /// Whether `feature` is in the set.
    pub fn contains(self, feature: Feature) -> (r: bool)
        ensures
            r == self.spec_contains(feature),
    {
        match feature {
            Feature::Solid => self.solid,
            Feature::HeaderEncryption => self.header_encryption,
            Feature::QuickOpen => self.quick_open,
        }
    }
}

/// A set is the features it contains.
pub proof fn lemma_set_is_its_features(a: FeatureSet, b: FeatureSet)
    requires
        forall|f: Feature| a.spec_contains(f) == b.spec_contains(f),
    ensures
        a == b,
{
    assert(a.spec_contains(Feature::Solid) == b.spec_contains(Feature::Solid));
    assert(a.spec_contains(Feature::HeaderEncryption) == b.spec_contains(
        Feature::HeaderEncryption,
    ));
    assert(a.spec_contains(Feature::QuickOpen) == b.spec_contains(Feature::QuickOpen));
}

} // verus!
