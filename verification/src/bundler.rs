//! The orchestrator. It owns the long-lived plugin driver, resolver and
//! storage, sequences the scan → link → bundle pipeline, caches the linked
//! result of a successful build for repeated output generation, and exposes
//! `build`, `generate` and `write`.
//!
//! State machine: the cached result is absent until a build succeeds; every
//! build attempt first clears the earlier result, so a failed build leaves
//! the orchestrator without a usable result and `generate`/`write` then fail
//! with a no-build-result error. A build whose scan or link collected
//! failures returns them as one batched error result; its best-effort linked
//! graph is kept apart, in `partial_result`, for inspection only. The
//! end-of-build hook fires exactly once per `build` call, in success and in
//! failure alike.
use vstd::prelude::*;
use vstd::seq_lib::group_to_multiset_ensures;
use crate::bundle::{asset_views, bundle, bundle_assets, Output};
use crate::bytes::{copy_bytes, join_path, joined, views};
use crate::errors::{append_error_copies, copy_error, err_views, has_err, has_module_failure,
    names_module_failure, BuildError, ErrView};
use crate::bytes::has_bytes;
use crate::graph::{distinct_ids, distinct_ords, has_module};
use crate::graph::ModuleNode;
use crate::link::{bound_targets, lemma_all_failures_real, lemma_perm_has_module, link,
    marks_spec, strict_by_ord, LinkStageOutput};
use crate::options::{InputOptions, OutputOptions};
use crate::plugin::{start_failures, Plugin, PluginDriver};
use crate::resolver::{coherent, Resolver};
use crate::plugin::{chain_outcome};
use crate::scan::{entry_failures, loaded_content, node_ok, resolved_entries, scan, scan_ok,
    warning_justified};
use crate::store::FileStore;

verus! {

/// What one output invocation hands back: the drained warnings and the
/// generated assets. Never retained inside the orchestrator.
pub struct RolldownOutput {
    pub warnings: Vec<BuildError>,
    pub assets: Vec<Output>,
}

pub struct Bundler {
    pub input_options: InputOptions,
    pub plugin_driver: PluginDriver,
    pub fs: FileStore,
    pub resolver: Resolver,
    /// The linked result of the last successful build, used by generate/write.
    pub build_result: Option<LinkStageOutput>,
    /// Best-effort linked output of the most recent failed build attempt,
    /// kept for inspection only: `generate` and `write` never read it.
    pub partial_result: Option<LinkStageOutput>,
}

/// The content that a sequence of asset writes under `outdir` leaves at `q`,
/// considering the first `k` (name, content) pairs; the newest write wins.
pub open spec fn written(assets: Seq<(Seq<u8>, Seq<u8>)>, outdir: Seq<u8>, q: Seq<u8>, k: int) -> Option<
    Seq<u8>,
>
    decreases k,
{
    if k <= 0 {
        None
    } else if joined(outdir, assets[k - 1].0) == q {
        Some(assets[k - 1].1)
    } else {
        written(assets, outdir, q, k - 1)
    }
}

/// A warning of a stored result reports an actual failure: content that no
/// load hook or storage supplies, a transform chain failing with exactly this
/// error, an unresolved import edge of the graph, or a resolved import whose
/// target module is missing from the graph.
pub open spec fn warning_supported(
    ps: Seq<Plugin>,
    fs: FileStore,
    ms: Seq<ModuleNode>,
    w: ErrView,
) -> bool {
    match w {
        ErrView::LoadFailed { id } => loaded_content(ps, fs, id) is None,
        ErrView::TransformFailed { id, .. } => loaded_content(ps, fs, id) is Some && chain_outcome(
            ps,
            id,
            loaded_content(ps, fs, id).unwrap(),
        ) == Err::<Seq<u8>, ErrView>(w),
        ErrView::Unresolved { specifier, importer } => match importer {
            Some(imp) => exists|m: int, e: int|
                0 <= m < ms.len() && 0 <= e < ms[m].imports@.len() && ms[m].id@ == imp && (
                #[trigger] ms[m].imports@[e]).specifier@ == specifier
                    && ms[m].imports@[e].resolved is None,
            None => false,
        },
        ErrView::UnboundImport { importer, specifier, target } => exists|m: int, e: int|
            0 <= m < ms.len() && 0 <= e < ms[m].imports@.len() && ms[m].id@ == importer && (
            #[trigger] ms[m].imports@[e]).specifier@ == specifier
                && ms[m].imports@[e].resolved is Some && ms[m].imports@[e].resolved.unwrap()@
                == target && !has_module(ms, target),
        _ => false,
    }
}

/// Everything `build` guarantees of a linked output it stores, relative to
/// the plugins, the storage and the configuration the pipeline ran with.
pub open spec fn linked_result_ok(
    ps: Seq<crate::plugin::Plugin>,
    fs: FileStore,
    cwd: Seq<u8>,
    ev: Seq<Seq<u8>>,
    l: LinkStageOutput,
) -> bool {

                &&& strict_by_ord(l.graph@)
                &&& distinct_ids(l.graph@)
                &&& l.included@ == marks_spec(l.graph@, views(l.entries@))
                &&& l.included@.len() == l.graph@.len()
                &&& l.deps@.len() == l.graph@.len()
                &&& forall|i: int|
                    0 <= i < l.graph@.len() ==> views((#[trigger] l.deps@[i])@) == bound_targets(
                        l.graph@[i].imports@,
                        l.graph@,
                    )
                &&& views(l.entries@) == resolved_entries(
                    ps,
                    fs,
                    cwd,
                    ev,
                )
                &&& forall|m: int|
                    0 <= m < l.graph@.len() ==> node_ok(
                        ps,
                        fs,
                        #[trigger] l.graph@[m],
                    )
                &&& forall|k: int|
                    0 <= k < l.entries@.len() && scan_ok(
                        ps,
                        fs,
                        (#[trigger] l.entries@[k])@,
                    ) ==> has_module(l.graph@, l.entries@[k]@)
                &&& forall|m: int|
                    0 <= m < l.graph@.len() ==> (has_bytes(
                        l.entries@,
                        (#[trigger] l.graph@[m]).id@,
                    ) || exists|m2: int, e: int|
                        0 <= m2 < m && 0 <= e < l.graph@[m2].imports@.len() && (
                        #[trigger] l.graph@[m2].imports@[e]).resolved is Some
                            && l.graph@[m2].imports@[e].resolved.unwrap()@ == l.graph@[m].id@)
                &&& forall|m: int, e: int|
                    0 <= m < l.graph@.len() && 0 <= e < l.graph@[m].imports@.len() && (
                    #[trigger] l.graph@[m].imports@[e]).resolved is Some && scan_ok(
                        ps,
                        fs,
                        l.graph@[m].imports@[e].resolved.unwrap()@,
                    ) ==> has_module(l.graph@, l.graph@[m].imports@[e].resolved.unwrap()@)
                &&& forall|m: int, e: int|
                    0 <= m < l.graph@.len() && 0 <= e < l.graph@[m].imports@.len() && (
                    #[trigger] l.graph@[m].imports@[e]).resolved is None ==> has_err(
                        l.warnings@,
                        ErrView::Unresolved {
                            specifier: l.graph@[m].imports@[e].specifier@,
                            importer: Some(l.graph@[m].id@),
                        },
                    )
                &&& forall|k: int|
                    0 <= k < l.entries@.len() && !scan_ok(
                        ps,
                        fs,
                        (#[trigger] l.entries@[k])@,
                    ) ==> has_module_failure(l.warnings@, l.entries@[k]@)
                &&& forall|m: int, e: int|
                    0 <= m < l.graph@.len() && 0 <= e < l.graph@[m].imports@.len() && (
                    #[trigger] l.graph@[m].imports@[e]).resolved is Some && !scan_ok(
                        ps,
                        fs,
                        l.graph@[m].imports@[e].resolved.unwrap()@,
                    ) ==> has_module_failure(l.warnings@, l.graph@[m].imports@[e].resolved.unwrap()@)
                &&& forall|w: int|
                    0 <= w < l.warnings@.len() ==> warning_supported(
                        ps,
                        fs,
                        l.graph@,
                        (#[trigger] l.warnings@[w])@,
                    )
}

impl Bundler {
    pub fn new(input_options: InputOptions) -> (r: Bundler)
        ensures
            r.input_options == input_options,
            r.plugin_driver.plugins@.len() == 0,
            r.plugin_driver.end_calls@.len() == 0,
            r.fs.files@.len() == 0 && r.fs.dirs@.len() == 0 && r.fs.fail_paths@.len() == 0,
            r.resolver.cache@.len() == 0,
            r.resolver.cwd@ == input_options.cwd@,
            r.build_result is None,
            r.partial_result is None,
    {
        Bundler::with_plugins(input_options, Vec::new())
    }

    pub fn with_plugins(input_options: InputOptions, plugins: Vec<Plugin>) -> (r: Bundler)
        ensures
            r.input_options == input_options,
            r.plugin_driver.plugins == plugins,
            r.plugin_driver.end_calls@.len() == 0,
            r.fs.files@.len() == 0 && r.fs.dirs@.len() == 0 && r.fs.fail_paths@.len() == 0,
            r.resolver.cache@.len() == 0,
            r.resolver.cwd@ == input_options.cwd@,
            r.build_result is None,
            r.partial_result is None,
    {
        Bundler::with_plugins_and_fs(input_options, plugins, FileStore::new())
    }

    pub fn with_plugins_and_fs(input_options: InputOptions, plugins: Vec<Plugin>, fs: FileStore) -> (r:
        Bundler)
        ensures
            r.input_options == input_options,
            r.plugin_driver.plugins == plugins,
            r.plugin_driver.end_calls@.len() == 0,
            r.fs == fs,
            r.resolver.cache@.len() == 0,
            r.resolver.cwd@ == input_options.cwd@,
            r.build_result is None,
            r.partial_result is None,
    {
        let resolver = Resolver::with_cwd(copy_bytes(&input_options.cwd));
        Bundler {
            input_options,
            plugin_driver: PluginDriver::new(plugins),
            fs,
            resolver,
            build_result: None,
            partial_result: None,
        }
    }

    /// Run the pipeline: start hooks, scan, link. The linked output is stored
    /// for generate/write only on success; all collected failures — unresolved
    /// entries, then the per-module scan and binding failures — are returned
    /// as one batched error result, and such a failed build stores only the
    /// best-effort `partial_result`, never a result `generate`/`write` can
    /// use. The end hook is dispatched exactly once, carrying the first
    /// reported error on failure.
    pub fn build(&mut self) -> (r: Result<(), Vec<BuildError>>)
        ensures
            final(self).input_options == old(self).input_options,
            final(self).fs == old(self).fs,
            final(self).plugin_driver.plugins == old(self).plugin_driver.plugins,
            final(self).plugin_driver.end_calls@.len() == old(self).plugin_driver.end_calls@.len()
                + 1,
            final(self).plugin_driver.end_calls@.take(
                old(self).plugin_driver.end_calls@.len() as int,
            ) == old(self).plugin_driver.end_calls@,
            r matches Err(es) ==> es@.len() > 0
                && (final(self).plugin_driver.end_calls@.last() matches Some(e) && e@ == es@[0]@),
            r is Ok ==> final(self).plugin_driver.end_calls@.last() is None,
            (final(self).build_result is Some) <==> r is Ok,
            start_failures(old(self).plugin_driver.plugins@).len() > 0 ==> (r matches Err(es)
                && err_views(es@) == start_failures(old(self).plugin_driver.plugins@)
                && final(self).partial_result is None),
            r is Ok ==> (final(self).build_result matches Some(l) && linked_result_ok(
                old(self).plugin_driver.plugins@,
                old(self).fs,
                old(self).input_options.cwd@,
                views(old(self).input_options.entries@),
                l,
            ) && entry_failures(
                old(self).plugin_driver.plugins@,
                old(self).fs,
                old(self).input_options.cwd@,
                views(old(self).input_options.entries@),
            ).len() == 0 && l.warnings@.len() == 0 && final(self).partial_result is None),
            start_failures(old(self).plugin_driver.plugins@).len() == 0 && r is Err ==> (r matches Err(es)
                && final(self).partial_result matches Some(l) && linked_result_ok(
                old(self).plugin_driver.plugins@,
                old(self).fs,
                old(self).input_options.cwd@,
                views(old(self).input_options.entries@),
                l,
            ) && err_views(es@) == entry_failures(
                old(self).plugin_driver.plugins@,
                old(self).fs,
                old(self).input_options.cwd@,
                views(old(self).input_options.entries@),
            ) + err_views(l.warnings@) && entry_failures(
                old(self).plugin_driver.plugins@,
                old(self).fs,
                old(self).input_options.cwd@,
                views(old(self).input_options.entries@),
            ).len() + l.warnings@.len() > 0),
    {
        self.build_result = None;
        self.partial_result = None;
        self.resolver.reset_cache();
        let start_errs = self.plugin_driver.build_start();
        if start_errs.len() > 0 {
            let first = copy_error(&start_errs[0]);
            proof {
                assert(err_views(start_errs@)[0] == start_errs@[0]@);
            }
            self.plugin_driver.build_end(Some(first));
            return Err(start_errs);
        }
        proof {
            assert(coherent(self.resolver, self.fs));
        }
        let mut scanned = scan(&self.input_options, &self.plugin_driver, &self.fs, &mut self.resolver);
        let ghost ps = self.plugin_driver.plugins@;
        let ghost sm = scanned.modules@;
        let ghost sv = scanned.visited@;
        let ghost sw = scanned.warnings@;
        let mut batch: Vec<BuildError> = Vec::new();
        core::mem::swap(&mut batch, &mut scanned.errors);
        proof {
            assert(distinct_ords(scanned.modules@));
        }
        let linked = link(scanned);
        proof {
            broadcast use group_to_multiset_ensures;

            assert forall|m: int| 0 <= m < linked.graph@.len() implies node_ok(
                ps,
                old(self).fs,
                #[trigger] linked.graph@[m],
            ) by {
                assert(linked.graph@.contains(linked.graph@[m]));
                assert(linked.graph@.to_multiset().count(linked.graph@[m]) > 0);
                assert(sm.to_multiset().count(linked.graph@[m]) > 0);
                assert(sm.contains(linked.graph@[m]));
                let j = choose|j: int| 0 <= j < sm.len() && sm[j] == linked.graph@[m];
                assert(node_ok(ps, old(self).fs, sm[j]));
            }
            assert forall|m: int|
                0 <= m < linked.graph@.len() implies (has_bytes(
                linked.entries@,
                (#[trigger] linked.graph@[m]).id@,
            ) || exists|m2: int, e: int|
                0 <= m2 < m && 0 <= e < linked.graph@[m2].imports@.len() && (
                #[trigger] linked.graph@[m2].imports@[e]).resolved is Some
                    && linked.graph@[m2].imports@[e].resolved.unwrap()@
                    == linked.graph@[m].id@) by {
                let nid = linked.graph@[m].id@;
                assert(linked.graph@.contains(linked.graph@[m]));
                assert(sm.to_multiset().count(linked.graph@[m]) > 0);
                assert(sm.contains(linked.graph@[m]));
                let j = choose|j: int| 0 <= j < sm.len() && sm[j] == linked.graph@[m];
                if !has_bytes(linked.entries@, nid) {
                    let (m3, e3) = choose|m3: int, e3: int|
                        0 <= m3 < j && 0 <= e3 < sm[m3].imports@.len() && (
                        #[trigger] sm[m3].imports@[e3]).resolved is Some
                            && sm[m3].imports@[e3].resolved.unwrap()@ == sm[j].id@;
                    assert(sm.contains(sm[m3]));
                    assert(linked.graph@.to_multiset().count(sm[m3]) > 0);
                    assert(linked.graph@.contains(sm[m3]));
                    let p = choose|p: int|
                        0 <= p < linked.graph@.len() && linked.graph@[p] == sm[m3];
                    assert(sm[m3].ord == m3);
                    assert(sm[j].ord == j);
                    assert(linked.graph@[p].ord == m3);
                    assert(linked.graph@[m].ord == j);
                    if p >= m {
                        if p > m {
                            assert(linked.graph@[m].ord < linked.graph@[p].ord);
                        }
                        assert(false);
                    }
                    assert((linked.graph@[p].imports@[e3]).resolved is Some
                        && linked.graph@[p].imports@[e3].resolved.unwrap()@ == nid);
                }
            }
            assert forall|k: int|
                0 <= k < linked.entries@.len() && scan_ok(
                    ps,
                    old(self).fs,
                    (#[trigger] linked.entries@[k])@,
                ) implies has_module(linked.graph@, linked.entries@[k]@) by {
                let kk = choose|kk: int|
                    0 <= kk < sv.len() && sv[kk]@ == linked.entries@[k]@;
                assert(scan_ok(ps, old(self).fs, sv[kk]@));
                assert(has_module(sm, linked.entries@[k]@));
                lemma_perm_has_module(sm, linked.graph@, linked.entries@[k]@);
            }
            assert forall|m: int, e: int|
                0 <= m < linked.graph@.len() && 0 <= e < linked.graph@[m].imports@.len() && (
                #[trigger] linked.graph@[m].imports@[e]).resolved is Some && scan_ok(
                    ps,
                    old(self).fs,
                    linked.graph@[m].imports@[e].resolved.unwrap()@,
                ) implies has_module(
                linked.graph@,
                linked.graph@[m].imports@[e].resolved.unwrap()@,
            ) by {
                let target = linked.graph@[m].imports@[e].resolved.unwrap()@;
                assert(linked.graph@.contains(linked.graph@[m]));
                assert(sm.to_multiset().count(linked.graph@[m]) > 0);
                assert(sm.contains(linked.graph@[m]));
                let j = choose|j: int| 0 <= j < sm.len() && sm[j] == linked.graph@[m];
                assert((sm[j].imports@[e]).resolved is Some);
                assert(has_bytes(sv, target));
                let kk = choose|kk: int| 0 <= kk < sv.len() && sv[kk]@ == target;
                assert(has_module(sm, target));
                lemma_perm_has_module(sm, linked.graph@, target);
            }
            assert forall|m: int, e: int|
                0 <= m < linked.graph@.len() && 0 <= e < linked.graph@[m].imports@.len() && (
                #[trigger] linked.graph@[m].imports@[e]).resolved is None implies has_err(
                linked.warnings@,
                ErrView::Unresolved {
                    specifier: linked.graph@[m].imports@[e].specifier@,
                    importer: Some(linked.graph@[m].id@),
                },
            ) by {
                let ev = ErrView::Unresolved {
                    specifier: linked.graph@[m].imports@[e].specifier@,
                    importer: Some(linked.graph@[m].id@),
                };
                assert(linked.graph@.contains(linked.graph@[m]));
                assert(sm.to_multiset().count(linked.graph@[m]) > 0);
                assert(sm.contains(linked.graph@[m]));
                let j = choose|j: int| 0 <= j < sm.len() && sm[j] == linked.graph@[m];
                assert((sm[j].imports@[e]).resolved is None);
                assert(has_err(sw, ev));
                let w = choose|w: int| 0 <= w < sw.len() && sw[w]@ == ev;
                assert(err_views(sw)[w] == sw[w]@);
                assert(err_views(sw)[w] == ev);
                assert(err_views(linked.warnings@) == err_views(sw) + crate::link::all_failures(
                    linked.graph@,
                    0,
                ));
                assert(err_views(linked.warnings@)[w] == ev);
                assert(err_views(linked.warnings@).len() == linked.warnings@.len());
                assert(err_views(linked.warnings@)[w] == linked.warnings@[w]@);
                assert(linked.warnings@[w]@ == ev);
            }
            assert forall|k: int|
                0 <= k < linked.entries@.len() && !scan_ok(
                    ps,
                    old(self).fs,
                    (#[trigger] linked.entries@[k])@,
                ) implies has_module_failure(linked.warnings@, linked.entries@[k]@) by {
                let target = linked.entries@[k]@;
                let kk = choose|kk: int| 0 <= kk < sv.len() && sv[kk]@ == target;
                assert(has_module_failure(sw, target));
                let w = choose|w: int| 0 <= w < sw.len() && names_module_failure(sw[w]@, target);
                assert(err_views(sw)[w] == sw[w]@);
                assert(err_views(linked.warnings@)[w] == sw[w]@);
                assert(err_views(linked.warnings@).len() == linked.warnings@.len());
                assert(err_views(linked.warnings@)[w] == linked.warnings@[w]@);
                assert(names_module_failure(linked.warnings@[w]@, target));
            }
            assert forall|m: int, e: int|
                0 <= m < linked.graph@.len() && 0 <= e < linked.graph@[m].imports@.len() && (
                #[trigger] linked.graph@[m].imports@[e]).resolved is Some && !scan_ok(
                    ps,
                    old(self).fs,
                    linked.graph@[m].imports@[e].resolved.unwrap()@,
                ) implies has_module_failure(
                linked.warnings@,
                linked.graph@[m].imports@[e].resolved.unwrap()@,
            ) by {
                let target = linked.graph@[m].imports@[e].resolved.unwrap()@;
                assert(linked.graph@.contains(linked.graph@[m]));
                assert(sm.to_multiset().count(linked.graph@[m]) > 0);
                assert(sm.contains(linked.graph@[m]));
                let j = choose|j: int| 0 <= j < sm.len() && sm[j] == linked.graph@[m];
                assert((sm[j].imports@[e]).resolved is Some);
                assert(has_bytes(sv, target));
                let kk = choose|kk: int| 0 <= kk < sv.len() && sv[kk]@ == target;
                assert(has_module_failure(sw, target));
                let w = choose|w: int| 0 <= w < sw.len() && names_module_failure(sw[w]@, target);
                assert(err_views(sw)[w] == sw[w]@);
                assert(err_views(linked.warnings@)[w] == sw[w]@);
                assert(err_views(linked.warnings@).len() == linked.warnings@.len());
                assert(err_views(linked.warnings@)[w] == linked.warnings@[w]@);
                assert(names_module_failure(linked.warnings@[w]@, target));
            }
        }
        proof {
            broadcast use group_to_multiset_ensures;

            lemma_all_failures_real(linked.graph@, 0);
            assert forall|w: int|
                0 <= w < linked.warnings@.len() implies warning_supported(
                ps,
                old(self).fs,
                linked.graph@,
                (#[trigger] linked.warnings@[w])@,
            ) by {
                assert(err_views(linked.warnings@).len() == linked.warnings@.len());
                assert(err_views(linked.warnings@)[w] == linked.warnings@[w]@);
                if w < sw.len() {
                    assert(err_views(sw)[w] == sw[w]@);
                    assert(linked.warnings@[w]@ == sw[w]@);
                    assert(warning_justified(ps, old(self).fs, sm, sv, sw[w]@));
                    match sw[w]@ {
                        ErrView::Unresolved { specifier, importer } => {
                            match importer {
                                Some(imp) => {
                                    let (m3, e3) = choose|m3: int, e3: int|
                                        0 <= m3 < sm.len() && 0 <= e3 < sm[m3].imports@.len()
                                            && sm[m3].id@ == imp && (
                                        #[trigger] sm[m3].imports@[e3]).specifier@ == specifier
                                            && sm[m3].imports@[e3].resolved is None;
                                    assert(sm.contains(sm[m3]));
                                    assert(linked.graph@.to_multiset().count(sm[m3]) > 0);
                                    assert(linked.graph@.contains(sm[m3]));
                                    let m2 = choose|m2: int|
                                        0 <= m2 < linked.graph@.len() && linked.graph@[m2]
                                            == sm[m3];
                                    assert(linked.graph@[m2].id@ == imp
                                        && linked.graph@[m2].imports@[e3].specifier@ == specifier
                                        && linked.graph@[m2].imports@[e3].resolved is None);
                                },
                                None => {},
                            }
                        },
                        _ => {},
                    }
                } else {
                    let j = w - sw.len();
                    assert(linked.warnings@[w]@ == crate::link::all_failures(
                        linked.graph@,
                        0,
                    )[j]);
                }
            }
        }
        append_error_copies(&mut batch, &linked.warnings);
        proof {
            assert(err_views(batch@).len() == batch@.len());
            assert(err_views(linked.warnings@).len() == linked.warnings@.len());
            assert(err_views(batch@) == entry_failures(
                ps,
                old(self).fs,
                old(self).input_options.cwd@,
                views(old(self).input_options.entries@),
            ) + err_views(linked.warnings@));
            assert(entry_failures(
                ps,
                old(self).fs,
                old(self).input_options.cwd@,
                views(old(self).input_options.entries@),
            ).len() + linked.warnings@.len() == batch@.len());
        }
        if batch.len() > 0 {
            let first = copy_error(&batch[0]);
            proof {
                assert(err_views(batch@)[0] == batch@[0]@);
            }
            self.plugin_driver.build_end(Some(first));
            self.partial_result = Some(linked);
            return Err(batch);
        }
        self.plugin_driver.build_end(None);
        self.build_result = Some(linked);
        Ok(())
    }

    /// Bundle the stored linked output and return assets plus the drained
    /// warnings, touching no storage. Fails when no build has produced a
    /// result, or when the output configuration is invalid.
    pub fn generate(&mut self, output_options: OutputOptions) -> (r: Result<
        RolldownOutput,
        Vec<BuildError>,
    >)
        ensures
            final(self).input_options == old(self).input_options,
            final(self).fs == old(self).fs,
            final(self).plugin_driver == old(self).plugin_driver,
            final(self).resolver == old(self).resolver,
            final(self).partial_result == old(self).partial_result,
            match old(self).build_result {
                None => r matches Err(es) && err_views(es@) == seq![ErrView::NoBuildResult]
                    && *final(self) == *old(self),
                Some(l) => if output_options.dir@.len() == 0 {
                    r matches Err(es) && err_views(es@) == seq![ErrView::InvalidOutputDir]
                        && *final(self) == *old(self)
                } else {
                    r matches Ok(out) && asset_views(out.assets@) == bundle_assets(
                        l.graph@,
                        l.included@,
                        views(l.entries@),
                    ) && out.warnings == l.warnings && (final(self).build_result matches Some(l2)
                        && l2.graph == l.graph && l2.deps == l.deps && l2.included == l.included
                        && l2.entries == l.entries && l2.warnings@.len() == 0)
                },
            },
    {
        match &mut self.build_result {
            None => {
                let es = vec![BuildError::NoBuildResult];
                proof {
                    assert(err_views(es@) =~= seq![ErrView::NoBuildResult]);
                }
                Err(es)
            },
            Some(linked) => {
                match bundle(linked, &output_options) {
                    Err(e) => {
                        let es = vec![e];
                        proof {
                            assert(err_views(es@) =~= seq![es@[0]@]);
                        }
                        Err(es)
                    },
                    Ok(assets) => {
                        let mut warnings: Vec<BuildError> = Vec::new();
                        core::mem::swap(&mut warnings, &mut linked.warnings);
                        Ok(RolldownOutput { warnings, assets })
                    },
                }
            },
        }
    }

    /// Generate, then persist every asset under the working directory joined
    /// with the output directory, creating it as needed. A storage failure is
    /// fatal for the call and surfaces as a structured error; writes already
    /// performed are kept (persistence is at-least-once, not transactional).
    /// Before any build has produced a result this fails without touching
    /// storage.
    pub fn write(&mut self, output_options: OutputOptions) -> (r: Result<
        RolldownOutput,
        Vec<BuildError>,
    >)
        ensures
            final(self).input_options == old(self).input_options,
            final(self).plugin_driver == old(self).plugin_driver,
            final(self).resolver == old(self).resolver,
            final(self).partial_result == old(self).partial_result,
            final(self).fs.fail_paths == old(self).fs.fail_paths,
            match old(self).build_result {
                None => r matches Err(es) && err_views(es@) == seq![ErrView::NoBuildResult]
                    && *final(self) == *old(self),
                Some(l) => if output_options.dir@.len() == 0 {
                    r matches Err(es) && err_views(es@) == seq![ErrView::InvalidOutputDir]
                        && *final(self) == *old(self)
                } else {
                    let outdir = joined(old(self).input_options.cwd@, output_options.dir@);
                    let planned = bundle_assets(l.graph@, l.included@, views(l.entries@));
                    &&& (final(self).build_result matches Some(l2) && l2.graph == l.graph
                        && l2.deps == l.deps && l2.included == l.included && l2.entries
                        == l.entries && l2.warnings@.len() == 0)
                    &&& ((r is Ok) <==> (!old(self).fs.fails_on(outdir) && forall|t: int|
                        0 <= t < planned.len() ==> !old(self).fs.fails_on(
                            joined(outdir, #[trigger] planned[t].0),
                        )))
                    &&& (r matches Ok(out) ==> asset_views(out.assets@) == planned && out.warnings
                        == l.warnings && views(final(self).fs.dirs@) == views(
                        old(self).fs.dirs@,
                    ).push(outdir) && forall|q: Seq<u8>|
                        #[trigger] final(self).fs.lookup(q) == (match written(
                            planned,
                            outdir,
                            q,
                            planned.len() as int,
                        ) {
                            Some(c) => Some(c),
                            None => old(self).fs.lookup(q),
                        }))
                    &&& (r matches Err(es) ==> es@.len() == 1 && (if old(self).fs.fails_on(
                        outdir,
                    ) {
                        es@[0]@ == (ErrView::IoFailed { path: outdir }) && final(self).fs == old(
                            self,
                        ).fs
                    } else {
                        exists|t: int|
                            0 <= t < planned.len() && (#[trigger] old(self).fs.fails_on(
                                joined(outdir, planned[t].0),
                            )) && (forall|u: int|
                                0 <= u < t ==> !old(self).fs.fails_on(
                                    joined(outdir, #[trigger] planned[u].0),
                                )) && es@[0]@ == (ErrView::IoFailed {
                                path: joined(outdir, planned[t].0),
                            }) && views(final(self).fs.dirs@) == views(old(self).fs.dirs@).push(
                                outdir,
                            ) && (forall|q: Seq<u8>|
                                #[trigger] final(self).fs.lookup(q) == (match written(
                                    planned,
                                    outdir,
                                    q,
                                    t,
                                ) {
                                    Some(c) => Some(c),
                                    None => old(self).fs.lookup(q),
                                }))
                    }))
                },
            },
    {
        let dir_copy = copy_bytes(&output_options.dir);
        let out = match self.generate(output_options) {
            Err(es) => {
                return Err(es);
            },
            Ok(o) => o,
        };
        let outdir = join_path(&self.input_options.cwd, &dir_copy);
        if !self.fs.create_dir_all(&outdir) {
            proof {
                assert(old(self).fs.fails_on(outdir@));
            }
            return Err(vec![BuildError::IoFailed { path: outdir }]);
        }
        let ghost fs1 = self.fs;
        let ghost me1 = *self;
        let mut i: usize = 0;
        while i < out.assets.len()
            invariant
                i <= out.assets.len(),
                self.input_options == me1.input_options,
                self.plugin_driver == me1.plugin_driver,
                self.resolver == me1.resolver,
                self.build_result == me1.build_result,
                self.partial_result == me1.partial_result,
                self.fs.dirs == fs1.dirs,
                self.fs.fail_paths == fs1.fail_paths,
                outdir@ == joined(old(self).input_options.cwd@, dir_copy@),
                forall|t: int|
                    0 <= t < i ==> !fs1.fails_on(
                        joined(outdir@, (#[trigger] out.assets@[t]).file_name@),
                    ),
                forall|q: Seq<u8>|
                    #[trigger] self.fs.lookup(q) == (match written(
                        asset_views(out.assets@),
                        outdir@,
                        q,
                        i as int,
                    ) {
                        Some(c) => Some(c),
                        None => fs1.lookup(q),
                    }),
            decreases out.assets.len() - i,
        {
            proof {
                assert(asset_views(out.assets@)[i as int] == (
                    out.assets@[i as int].file_name@,
                    out.assets@[i as int].content@,
                ));
            }
            let dest = join_path(&outdir, &out.assets[i].file_name);
            if !self.fs.write_file(&dest, &out.assets[i].content) {
                proof {
                    assert(self.fs.fail_paths@ == old(self).fs.fail_paths@);
                    assert(old(self).fs.fails_on(dest@));
                    assert(fs1.files == old(self).fs.files);
                    match old(self).build_result {
                        Some(l) => {
                            let planned = bundle_assets(l.graph@, l.included@, views(l.entries@));
                            assert(planned == asset_views(out.assets@));
                            assert(planned[i as int].0 == out.assets@[i as int].file_name@);
                            assert(0 <= i as int && (i as int) < planned.len());
                            assert(old(self).fs.fails_on(joined(outdir@, planned[i as int].0)));
                            assert forall|u: int| 0 <= u < i implies !old(self).fs.fails_on(
                                joined(outdir@, #[trigger] planned[u].0),
                            ) by {
                                assert(asset_views(out.assets@)[u] == (
                                    out.assets@[u].file_name@,
                                    out.assets@[u].content@,
                                ));
                                assert(!fs1.fails_on(joined(outdir@, out.assets@[u].file_name@)));
                            }
                            assert forall|q: Seq<u8>| #[trigger] self.fs.lookup(q) == (match written(
                                planned,
                                outdir@,
                                q,
                                i as int,
                            ) {
                                Some(c) => Some(c),
                                None => old(self).fs.lookup(q),
                            }) by {
                                assert(fs1.lookup(q) == old(self).fs.lookup(q));
                            }
                        },
                        None => {},
                    }
                }
                return Err(vec![BuildError::IoFailed { path: dest }]);
            }
            i = i + 1;
        }
        proof {
            let planned = match old(self).build_result {
                Some(l) => bundle_assets(l.graph@, l.included@, views(l.entries@)),
                None => Seq::empty(),
            };
            assert forall|t: int| 0 <= t < planned.len() implies !old(self).fs.fails_on(
                joined(outdir@, #[trigger] planned[t].0),
            ) by {
                assert(asset_views(out.assets@)[t] == (
                    out.assets@[t].file_name@,
                    out.assets@[t].content@,
                ));
                assert(!fs1.fails_on(joined(outdir@, out.assets@[t].file_name@)));
            }
            assert(fs1.files == old(self).fs.files);
            assert(planned == asset_views(out.assets@));
        }
        Ok(out)
    }
}

} // verus!
