//! Structured build errors. Every error carries enough context (module
//! identifier, specifier, plugin name) to localize the fault.
use vstd::prelude::*;
use crate::bytes::copy_bytes;

verus! {

/// One structured build failure.
#[derive(Clone, Debug)]
pub enum BuildError {
    /// A specifier could not be mapped to a module identifier. `importer` is
    /// `None` when the specifier was an entry point.
    Unresolved { specifier: Vec<u8>, importer: Option<Vec<u8>> },
    /// No plugin supplied content for a module and storage had none either.
    LoadFailed { id: Vec<u8> },
    /// A plugin's transform hook failed for a module.
    TransformFailed { id: Vec<u8>, plugin: Vec<u8> },
    /// A plugin's build-start hook failed.
    HookFailed { plugin: Vec<u8> },
    /// An import resolved to a module identifier that never made it into the
    /// graph, so no binding could be produced at link time.
    UnboundImport { importer: Vec<u8>, specifier: Vec<u8>, target: Vec<u8> },
    /// The output configuration is invalid.
    InvalidOutputDir,
    /// `generate` or `write` was called before any build produced a result.
    NoBuildResult,
    /// Storage refused a write or a directory creation.
    IoFailed { path: Vec<u8> },
}

/// Mathematical view of a build error.
pub enum ErrView {
    Unresolved { specifier: Seq<u8>, importer: Option<Seq<u8>> },
    LoadFailed { id: Seq<u8> },
    TransformFailed { id: Seq<u8>, plugin: Seq<u8> },
    HookFailed { plugin: Seq<u8> },
    UnboundImport { importer: Seq<u8>, specifier: Seq<u8>, target: Seq<u8> },
    InvalidOutputDir,
    NoBuildResult,
    IoFailed { path: Seq<u8> },
}

impl View for BuildError {
    type V = ErrView;

    open spec fn view(&self) -> ErrView {
        match self {
            BuildError::Unresolved { specifier, importer } => ErrView::Unresolved {
                specifier: specifier@,
                importer: match importer {
                    Some(v) => Some(v@),
                    None => None,
                },
            },
            BuildError::LoadFailed { id } => ErrView::LoadFailed { id: id@ },
            BuildError::TransformFailed { id, plugin } => ErrView::TransformFailed {
                id: id@,
                plugin: plugin@,
            },
            BuildError::HookFailed { plugin } => ErrView::HookFailed { plugin: plugin@ },
            BuildError::UnboundImport { importer, specifier, target } => ErrView::UnboundImport {
                importer: importer@,
                specifier: specifier@,
                target: target@,
            },
            BuildError::InvalidOutputDir => ErrView::InvalidOutputDir,
            BuildError::NoBuildResult => ErrView::NoBuildResult,
            BuildError::IoFailed { path } => ErrView::IoFailed { path: path@ },
        }
    }
}

/// Views of a sequence of build errors.
pub open spec fn err_views(s: Seq<BuildError>) -> Seq<ErrView> {
    s.map_values(|e: BuildError| e@)
}

/// A load or transform failure naming this module.
pub open spec fn names_module_failure(e: ErrView, id: Seq<u8>) -> bool {
    match e {
        ErrView::LoadFailed { id: i } => i == id,
        ErrView::TransformFailed { id: i, .. } => i == id,
        _ => false,
    }
}

/// Some collected error has exactly this view.
pub open spec fn has_err(s: Seq<BuildError>, e: ErrView) -> bool {
    exists|w: int| 0 <= w < s.len() && s[w]@ == e
}

/// Some collected error is a load or transform failure naming this module.
pub open spec fn has_module_failure(s: Seq<BuildError>, id: Seq<u8>) -> bool {
    exists|w: int| 0 <= w < s.len() && names_module_failure(s[w]@, id)
}

/// An exact copy of one error.
pub fn copy_error(e: &BuildError) -> (r: BuildError)
    ensures
        r@ == e@,
{
    match e {
        BuildError::Unresolved { specifier, importer } => BuildError::Unresolved {
            specifier: copy_bytes(specifier),
            importer: match importer {
                Some(v) => Some(copy_bytes(v)),
                None => None,
            },
        },
        BuildError::LoadFailed { id } => BuildError::LoadFailed { id: copy_bytes(id) },
        BuildError::TransformFailed { id, plugin } => BuildError::TransformFailed {
            id: copy_bytes(id),
            plugin: copy_bytes(plugin),
        },
        BuildError::HookFailed { plugin } => BuildError::HookFailed {
            plugin: copy_bytes(plugin),
        },
        BuildError::UnboundImport { importer, specifier, target } => BuildError::UnboundImport {
            importer: copy_bytes(importer),
            specifier: copy_bytes(specifier),
            target: copy_bytes(target),
        },
        BuildError::InvalidOutputDir => BuildError::InvalidOutputDir,
        BuildError::NoBuildResult => BuildError::NoBuildResult,
        BuildError::IoFailed { path } => BuildError::IoFailed { path: copy_bytes(path) },
    }
}

/// Append an exact copy of each error in `src` to `dst`.
pub fn append_error_copies(dst: &mut Vec<BuildError>, src: &Vec<BuildError>)
    ensures
        err_views(final(dst)@) == err_views(old(dst)@) + err_views(src@),
{
    proof {
        assert(err_views(old(dst)@) + err_views(src@.take(0)) =~= err_views(old(dst)@));
    }
    let mut i: usize = 0;
    while i < src.len()
        invariant
            i <= src.len(),
            err_views(dst@) == err_views(old(dst)@) + err_views(src@.take(i as int)),
        decreases src.len() - i,
    {
        dst.push(copy_error(&src[i]));
        proof {
            assert(err_views(dst@) =~= err_views(dst@.drop_last()).push(dst@.last()@));
            assert(err_views(src@.take(i as int + 1)) =~= err_views(src@.take(i as int)).push(
                src@[i as int]@,
            ));
            assert(err_views(old(dst)@) + err_views(src@.take(i as int + 1)) =~= (err_views(
                old(dst)@,
            ) + err_views(src@.take(i as int))).push(src@[i as int]@));
        }
        i = i + 1;
    }
    proof {
        assert(err_views(src@.take(src@.len() as int)) =~= err_views(src@));
    }
}

/// The error kinds that scanning may collect without aborting the build.
pub open spec fn is_scan_warning(e: ErrView) -> bool {
    match e {
        ErrView::Unresolved { importer, .. } => importer is Some,
        ErrView::LoadFailed { .. } => true,
        ErrView::TransformFailed { .. } => true,
        _ => false,
    }
}

} // verus!
