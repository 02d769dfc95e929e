use vstd::prelude::*;

use crate::coupling::{BucketingConfig, CouplingConfig};
use crate::flare::FlareTreeNode;
use crate::git_user_dictionary::GitUserDictionary;
use crate::FeatureFlags;

verus! {

/// The data-format version written into every document.
pub fn data_file_version() -> (r: String)
    ensures
        r@ == "1.0.2"@,
{
    String::from_str("1.0.2")
}

/// Root metadata contributed by the git pass: the user dictionary.
#[derive(Debug)]
pub struct GitMetadata {
    pub users: GitUserDictionary,
}

/// Root metadata contributed by the coupling pass.
#[derive(Debug)]
pub struct CouplingMetadata {
    pub buckets: BucketingConfig,
    pub config: CouplingConfig,
}

/// Indicator-specific root-level metadata; absent parts are omitted on
/// output.
#[derive(Debug)]
pub struct IndicatorMetadata {
    pub git: Option<GitMetadata>,
    pub coupling: Option<CouplingMetadata>,
}

/// The whole output document: version, name, id, the indicator tree, root
/// metadata, and the enabled features.
#[derive(Debug)]
pub struct PolyglotData {
    version: String,
    name: String,
    id: String,
    tree: FlareTreeNode,
    metadata: IndicatorMetadata,
    features: FeatureFlags,
}

/// Relies on uuid::Uuid::new_v4 and its hyphenated form: a freshly drawn
/// random identifier rendered as 36 characters. Nothing further can be
/// promised of a random value.
#[verifier::external_body]
fn new_uuid_string() -> (r: String)
    ensures
        r@.len() == 36,
{
    uuid::Uuid::new_v4().as_hyphenated().to_string()
}

impl PolyglotData {
    /// A document around a tree: the id is the caller's, or freshly
    /// generated when none was given.
    pub fn new(name: &str, id: Option<&str>, tree: FlareTreeNode, features: FeatureFlags) -> (r:
        Self)
        ensures
            r.spec_name() == name@,
            r.spec_version() == "1.0.2"@,
            (match id {
                Option::Some(given) => r.spec_id() == given@,
                Option::None => r.spec_id().len() == 36,
            }),
            r.spec_tree() == tree,
            r.spec_features() == features,
            r.spec_metadata().git is None,
            r.spec_metadata().coupling is None,
    {
        let id_string = match id {
            Option::Some(given) => String::from_str(given),
            Option::None => new_uuid_string(),
        };
        PolyglotData {
            version: data_file_version(),
            name: String::from_str(name),
            id: id_string,
            tree,
            metadata: IndicatorMetadata { git: Option::None, coupling: Option::None },
            features,
        }
    }

    pub closed spec fn spec_name(&self) -> Seq<char> {
        self.name@
    }

    pub closed spec fn spec_version(&self) -> Seq<char> {
        self.version@
    }

    pub closed spec fn spec_id(&self) -> Seq<char> {
        self.id@
    }

    pub closed spec fn spec_tree(&self) -> FlareTreeNode {
        self.tree
    }

    pub closed spec fn spec_metadata(&self) -> IndicatorMetadata {
        self.metadata
    }

    pub closed spec fn spec_features(&self) -> FeatureFlags {
        self.features
    }

    pub fn name(&self) -> (r: &String)
        ensures
            r@ == self.spec_name(),
    {
        &self.name
    }

    pub fn version(&self) -> (r: &String)
        ensures
            r@ == self.spec_version(),
    {
        &self.version
    }

    pub fn id(&self) -> (r: &String)
        ensures
            r@ == self.spec_id(),
    {
        &self.id
    }

    pub fn features(&self) -> (r: FeatureFlags)
        ensures
            r == self.spec_features(),
    {
        self.features
    }

    pub fn tree(&self) -> (r: &FlareTreeNode)
        ensures
            *r == self.spec_tree(),
    {
        &self.tree
    }

    pub fn tree_mut(&mut self) -> (r: &mut FlareTreeNode)
        ensures
            *r == old(self).spec_tree(),
            final(self).spec_tree() == *final(r),
            final(self).spec_name() == old(self).spec_name(),
            final(self).spec_version() == old(self).spec_version(),
            final(self).spec_id() == old(self).spec_id(),
            final(self).spec_metadata() == old(self).spec_metadata(),
            final(self).spec_features() == old(self).spec_features(),
    {
        &mut self.tree
    }

    pub fn metadata(&self) -> (r: &IndicatorMetadata)
        ensures
            *r == self.spec_metadata(),
    {
        &self.metadata
    }

    pub fn set_git_metadata(&mut self, git: GitMetadata)
        ensures
            final(self).spec_version() == old(self).spec_version(),
            final(self).spec_metadata().git is Some,
            final(self).spec_metadata().coupling == old(self).spec_metadata().coupling,
            final(self).spec_tree() == old(self).spec_tree(),
            final(self).spec_name() == old(self).spec_name(),
            final(self).spec_id() == old(self).spec_id(),
            final(self).spec_features() == old(self).spec_features(),
    {
        self.metadata.git = Option::Some(git);
    }

    pub fn set_coupling_metadata(&mut self, coupling: CouplingMetadata)
        ensures
            final(self).spec_version() == old(self).spec_version(),
            final(self).spec_metadata().coupling == Option::Some(coupling),
            final(self).spec_metadata().git is Some == old(self).spec_metadata().git is Some,
            final(self).spec_tree() == old(self).spec_tree(),
            final(self).spec_name() == old(self).spec_name(),
            final(self).spec_id() == old(self).spec_id(),
            final(self).spec_features() == old(self).spec_features(),
    {
        self.metadata.coupling = Option::Some(coupling);
    }
}

} // verus!
