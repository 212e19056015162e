use vstd::prelude::*;

verus! {

use crate::errors::FsError;
use crate::path::FsPath;
use crate::store::{WriteMode, spec_write};
use crate::tree::{FsTree, NodeView};
use vstd::slice::slice_to_vec;
use vstd::string::StringSliceAdditionalSpecFns;

/// Writes rendered document text to `target`, delegating to the store's
/// write primitive: create-new unless `overwrite` is set.  No transform
/// beyond encoding the text to bytes; rendering is the caller's job.
pub fn export_html(tree: &mut FsTree, content: &str, target: &FsPath, overwrite: bool) -> (r:
    Result<(), FsError>)
    requires
        old(tree).wf(),
        target.wf(),
    ensures
        final(tree).wf(),
        final(tree).same_config(old(tree)),
        match r {
            Ok(_) => {
                &&& spec_write(
                    old(tree).policy,
                    old(tree).view_root(),
                    target@,
                    content.spec_bytes(),
                    !overwrite,
                ) == Ok::<NodeView, FsError>(final(tree).view_root())
                &&& final(tree).at_path(target@) == Some(
                    NodeView::File { content: content.spec_bytes(), readable: true },
                )
            },
            Err(e) => {
                &&& spec_write(
                    old(tree).policy,
                    old(tree).view_root(),
                    target@,
                    content.spec_bytes(),
                    !overwrite,
                ) == Err::<NodeView, FsError>(e)
                &&& final(tree).view_root() == old(tree).view_root()
            },
        },
{
    let bytes: Vec<u8> = slice_to_vec(content.as_bytes());
    let mode = if overwrite {
        WriteMode::Overwrite
    } else {
        WriteMode::CreateNew
    };
    tree.write_content(target, bytes, mode)
}

} // verus!
