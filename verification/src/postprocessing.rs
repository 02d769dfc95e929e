use vstd::prelude::*;

use crate::flare::FlareTreeNode;
use crate::ScannerConfig;

verus! {

/// Strip the bulky per-file git lists from the whole tree before it is
/// written out; the per-day summaries stay only when detailed git output is
/// asked for.
pub fn postprocess_tree(tree: &mut FlareTreeNode, config: &ScannerConfig)
    ensures
        final(tree).spec_name() == old(tree).spec_name(),
        final(tree).spec_is_file() == old(tree).spec_is_file(),
        final(tree).spec_children().len() == old(tree).spec_children().len(),
{
    tree.strip_git_lists(config.features.git_details);
}

} // verus!
