//! The cloud-dependent part of the cost model.
use vstd::prelude::*;

verus! {

/// The price tier of a cloud provider.
#[derive(PartialEq, Eq, Structural, Clone, Copy, Debug)]
pub enum CloudTier {
    /// "aws"
    Aws,
    /// "azure"
    Azure,
    /// Any other provider.
    Other,
}

/// The tier of the provider named `cloud`; names match exactly.
pub open spec fn tier_of(cloud: Seq<char>) -> CloudTier {
    if cloud == "aws"@ {
        CloudTier::Aws
    } else if cloud == "azure"@ {
        CloudTier::Azure
    } else {
        CloudTier::Other
    }
}

/// "aws" and only "aws" is priced as AWS, "azure" and only "azure" as
/// Azure, and every other name at the default tier.
pub proof fn lemma_tier_names(cloud: Seq<char>)
    ensures
        tier_of(cloud) == CloudTier::Aws <==> cloud == "aws"@,
        tier_of(cloud) == CloudTier::Azure <==> cloud == "azure"@,
        tier_of(cloud) == CloudTier::Other <==> cloud != "aws"@ && cloud != "azure"@,
{
    reveal_strlit("aws");
    reveal_strlit("azure");
    assert("aws"@ != "azure"@) by {
        assert("aws"@.len() != "azure"@.len());
    }
}

/// The tier of the provider named `cloud`.
pub fn cloud_tier(cloud: &str) -> (tier: CloudTier)
    ensures
        tier == tier_of(cloud@),
{
    let name = cloud.to_owned();
    if name == "aws".to_owned() {
        CloudTier::Aws
    } else if name == "azure".to_owned() {
        CloudTier::Azure
    } else {
        CloudTier::Other
    }
}

/// Cost model for one cloud provider.
pub struct CostModel {
    cloud: String,
}

impl CostModel {
    /// The provider's name.
    pub closed spec fn cloud(&self) -> Seq<char> {
        self.cloud@
    }

    /// A cost model for the provider named `cloud`.
    pub fn new(cloud: &str) -> (model: Self)
        ensures
            model.cloud() == cloud@,
    {
        CostModel { cloud: cloud.to_owned() }
    }

    /// The price tier the model charges at.
    pub fn tier(&self) -> (tier: CloudTier)
        ensures
            tier == tier_of(self.cloud()),
    {
        cloud_tier(self.cloud.as_str())
    }
}

} // verus!
