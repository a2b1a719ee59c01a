//! Plugins and the plugin driver. A plugin is a named, ordered participant
//! exposing a subset of the lifecycle hooks {start, resolve, load, transform,
//! end}, described here as data: finite response tables plus failure switches.
//! The driver dispatches hooks over the registered plugins with three
//! disciplines: first-result (resolve, load), chained (transform) and
//! notification (start, end).
use vstd::prelude::*;
use crate::bytes::{assoc_get, assoc_lookup, append_bytes, contains_bytes, copy_bytes, has_bytes,
    opt_bytes};
use crate::errors::{err_views, BuildError, ErrView};

verus! {

/// One plugin: which hooks it supports and how it answers them.
/// An absent key simply means the plugin declines that call.
pub struct Plugin {
    pub name: Vec<u8>,
    /// The start hook fails when set.
    pub fail_start: bool,
    /// resolve hook: specifier -> module identifier.
    pub resolutions: Vec<(Vec<u8>, Vec<u8>)>,
    /// load hook: module identifier -> content.
    pub loads: Vec<(Vec<u8>, Vec<u8>)>,
    /// transform hook: module identifier -> prefix prepended to the content.
    pub banners: Vec<(Vec<u8>, Vec<u8>)>,
    /// transform hook fails for these module identifiers.
    pub transform_fails: Vec<Vec<u8>>,
}

/// Ordered plugin set plus a log of end-of-build notifications, one entry per
/// dispatched end hook round.
pub struct PluginDriver {
    pub plugins: Vec<Plugin>,
    pub end_calls: Vec<Option<BuildError>>,
}

/// First-result resolve dispatch: the first plugin, in registration order,
/// whose table maps the specifier wins; the rest are skipped.
pub open spec fn plugin_resolution(ps: Seq<Plugin>, s: Seq<u8>) -> Option<Seq<u8>>
    decreases ps.len(),
{
    if ps.len() == 0 {
        None
    } else {
        match assoc_lookup(ps[0].resolutions@, s) {
            Some(id) => Some(id),
            None => plugin_resolution(ps.drop_first(), s),
        }
    }
}

/// First-result load dispatch.
pub open spec fn plugin_load(ps: Seq<Plugin>, id: Seq<u8>) -> Option<Seq<u8>>
    decreases ps.len(),
{
    if ps.len() == 0 {
        None
    } else {
        match assoc_lookup(ps[0].loads@, id) {
            Some(c) => Some(c),
            None => plugin_load(ps.drop_first(), id),
        }
    }
}

/// Chained transform dispatch: each plugin in turn may rewrite the content;
/// the first failure aborts the chain for this module only.
pub open spec fn chain_outcome(ps: Seq<Plugin>, id: Seq<u8>, content: Seq<u8>) -> Result<
    Seq<u8>,
    ErrView,
>
    decreases ps.len(),
{
    if ps.len() == 0 {
        Ok(content)
    } else if has_bytes(ps[0].transform_fails@, id) {
        Err(ErrView::TransformFailed { id: id, plugin: ps[0].name@ })
    } else {
        chain_outcome(
            ps.drop_first(),
            id,
            match assoc_lookup(ps[0].banners@, id) {
                Some(b) => b + content,
                None => content,
            },
        )
    }
}

/// Failures of the start notification round, in registration order. Every
/// plugin is invoked, so every failing plugin contributes an error.
pub open spec fn start_failures(ps: Seq<Plugin>) -> Seq<ErrView>
    decreases ps.len(),
{
    if ps.len() == 0 {
        Seq::empty()
    } else {
        (if ps[0].fail_start {
            seq![ErrView::HookFailed { plugin: ps[0].name@ }]
        } else {
            Seq::empty()
        }) + start_failures(ps.drop_first())
    }
}

impl PluginDriver {
    pub fn new(plugins: Vec<Plugin>) -> (r: PluginDriver)
        ensures
            r.plugins == plugins,
            r.end_calls@.len() == 0,
    {
        PluginDriver { plugins, end_calls: Vec::new() }
    }

    /// Dispatch the resolve hook.
    pub fn resolve_hook(&self, specifier: &Vec<u8>) -> (r: Option<Vec<u8>>)
        ensures
            opt_bytes(r) == plugin_resolution(self.plugins@, specifier@),
    {
        proof {
            assert(self.plugins@.skip(0) =~= self.plugins@);
        }
        let mut i: usize = 0;
        while i < self.plugins.len()
            invariant
                i <= self.plugins.len(),
                plugin_resolution(self.plugins@, specifier@) == plugin_resolution(
                    self.plugins@.skip(i as int),
                    specifier@,
                ),
            decreases self.plugins.len() - i,
        {
            let hit = assoc_get(&self.plugins[i].resolutions, specifier);
            if hit.is_some() {
                return hit;
            }
            proof {
                assert(self.plugins@.skip(i as int).drop_first() =~= self.plugins@.skip(
                    i as int + 1,
                ));
            }
            i = i + 1;
        }
        None
    }

    /// Dispatch the load hook.
    pub fn load_hook(&self, id: &Vec<u8>) -> (r: Option<Vec<u8>>)
        ensures
            opt_bytes(r) == plugin_load(self.plugins@, id@),
    {
        proof {
            assert(self.plugins@.skip(0) =~= self.plugins@);
        }
        let mut i: usize = 0;
        while i < self.plugins.len()
            invariant
                i <= self.plugins.len(),
                plugin_load(self.plugins@, id@) == plugin_load(
                    self.plugins@.skip(i as int),
                    id@,
                ),
            decreases self.plugins.len() - i,
        {
            let hit = assoc_get(&self.plugins[i].loads, id);
            if hit.is_some() {
                return hit;
            }
            proof {
                assert(self.plugins@.skip(i as int).drop_first() =~= self.plugins@.skip(
                    i as int + 1,
                ));
            }
            i = i + 1;
        }
        None
    }

    /// Dispatch the transform chain for one module.
    pub fn transform_chain(&self, id: &Vec<u8>, content: Vec<u8>) -> (r: Result<
        Vec<u8>,
        BuildError,
    >)
        ensures
            match r {
                Ok(c) => chain_outcome(self.plugins@, id@, content@) == Ok::<Seq<u8>, ErrView>(
                    c@,
                ),
                Err(e) => chain_outcome(self.plugins@, id@, content@) == Err::<Seq<u8>, ErrView>(
                    e@,
                ),
            },
    {
        proof {
            assert(self.plugins@.skip(0) =~= self.plugins@);
        }
        let mut cur = content;
        let mut i: usize = 0;
        while i < self.plugins.len()
            invariant
                i <= self.plugins.len(),
                chain_outcome(self.plugins@, id@, content@) == chain_outcome(
                    self.plugins@.skip(i as int),
                    id@,
                    cur@,
                ),
            decreases self.plugins.len() - i,
        {
            if contains_bytes(&self.plugins[i].transform_fails, id) {
                return Err(
                    BuildError::TransformFailed {
                        id: copy_bytes(id),
                        plugin: copy_bytes(&self.plugins[i].name),
                    },
                );
            }
            match assoc_get(&self.plugins[i].banners, id) {
                Some(b) => {
                    let mut next = b;
                    append_bytes(&mut next, &cur);
                    cur = next;
                },
                None => {},
            }
            proof {
                assert(self.plugins@.skip(i as int).drop_first() =~= self.plugins@.skip(
                    i as int + 1,
                ));
            }
            i = i + 1;
        }
        Ok(cur)
    }

    /// Dispatch the start notification round; every plugin is invoked and all
    /// failures are collected.
    pub fn build_start(&self) -> (errs: Vec<BuildError>)
        ensures
            err_views(errs@) == start_failures(self.plugins@),
    {
        proof {
            assert(self.plugins@.skip(0) =~= self.plugins@);
            assert(err_views(Seq::<BuildError>::empty()) =~= Seq::<ErrView>::empty());
        }
        let mut errs: Vec<BuildError> = Vec::new();
        let mut i: usize = 0;
        while i < self.plugins.len()
            invariant
                i <= self.plugins.len(),
                start_failures(self.plugins@) == err_views(errs@) + start_failures(
                    self.plugins@.skip(i as int),
                ),
            decreases self.plugins.len() - i,
        {
            if self.plugins[i].fail_start {
                errs.push(BuildError::HookFailed { plugin: copy_bytes(&self.plugins[i].name) });
                proof {
                    assert(err_views(errs@) =~= err_views(errs@.drop_last()).push(
                        errs@.last()@,
                    ));
                }
            }
            proof {
                assert(self.plugins@.skip(i as int).drop_first() =~= self.plugins@.skip(
                    i as int + 1,
                ));
                assert(start_failures(self.plugins@) =~= err_views(errs@) + start_failures(
                    self.plugins@.skip(i as int + 1),
                ));
            }
            i = i + 1;
        }
        proof {
            assert(start_failures(self.plugins@) =~= err_views(errs@));
        }
        errs
    }

    /// Dispatch the end notification round, recording that it ran: one log
    /// entry per round, carrying the terminal error on failure.
    pub fn build_end(&mut self, terminal: Option<BuildError>)
        ensures
            final(self).plugins == old(self).plugins,
            final(self).end_calls@ == old(self).end_calls@.push(terminal),
    {
        self.end_calls.push(terminal);
    }
}

} // verus!
