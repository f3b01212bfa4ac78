//! The extension registry: an in-memory table of plugin bundles, keyed by
//! manifest identifier.
//!
//! The host walks the plugins directory, parses each bundle's manifest into
//! plain values and feeds them in through [`PluginManager::add_discovered`]
//! or [`PluginManager::install_plugin`]; writing manifests back and copying
//! or removing bundle directories is likewise the host's part.  Everything
//! keyed — lookup, enable, disable, install, uninstall, statistics — is
//! decided here.

use vstd::prelude::*;

use crate::text::string_eq_str;

verus! {

/// A plugin bundle's manifest.  Dependencies are kept as (name, version)
/// pairs in manifest order.
#[derive(Debug, Clone, PartialEq)]
pub struct PluginManifest {
    pub id: String,
    pub name: String,
    pub version: String,
    pub description: Option<String>,
    pub author: Option<String>,
    pub main: String,
    pub permissions: Vec<String>,
    pub dependencies: Vec<(String, String)>,
    pub enabled: bool,
}

/// A registered plugin: its manifest, where its bundle lives, and its
/// runtime state.
#[derive(Debug, Clone, PartialEq)]
pub struct PluginInfo {
    pub manifest: PluginManifest,
    pub path: String,
    pub loaded: bool,
    pub error: Option<String>,
}

/// Counts over the registry.
#[derive(Debug, Clone, PartialEq)]
pub struct PluginManagerStats {
    pub total: usize,
    pub enabled: usize,
    pub loaded: usize,
    pub errors: usize,
}

/// `b` is a copy of `a`: every field equal, the vector fields by contents.
pub open spec fn manifest_eq(a: PluginManifest, b: PluginManifest) -> bool {
    &&& a.id == b.id
    &&& a.name == b.name
    &&& a.version == b.version
    &&& a.description == b.description
    &&& a.author == b.author
    &&& a.main == b.main
    &&& a.permissions@ == b.permissions@
    &&& a.dependencies@ == b.dependencies@
    &&& a.enabled == b.enabled
}

/// `b` is a copy of `a`: every field equal, the manifest by [`manifest_eq`].
pub open spec fn info_eq(a: PluginInfo, b: PluginInfo) -> bool {
    &&& manifest_eq(a.manifest, b.manifest)
    &&& a.path == b.path
    &&& a.loaded == b.loaded
    &&& a.error == b.error
}

/// Some registered plugin carries the identifier `id`.
pub open spec fn has_plugin(ps: Seq<PluginInfo>, id: Seq<char>) -> bool {
    exists|i: int| 0 <= i < ps.len() && (#[trigger] ps[i]).manifest.id@ == id
}

/// The position of the plugin with identifier `id` (unique when the
/// registry is well formed).
pub open spec fn idx_of(ps: Seq<PluginInfo>, id: Seq<char>) -> int {
    choose|i: int| 0 <= i < ps.len() && (#[trigger] ps[i]).manifest.id@ == id
}

/// No two registered plugins share an identifier.
pub open spec fn distinct_plugin_ids(ps: Seq<PluginInfo>) -> bool {
    forall|i: int, j: int|
        0 <= i < ps.len() && 0 <= j < ps.len() && i != j ==> (#[trigger] ps[i]).manifest.id@ != (
        #[trigger] ps[j]).manifest.id@
}

/// The plugin with its enabled flag set.
pub open spec fn with_enabled(p: PluginInfo, on: bool) -> PluginInfo {
    PluginInfo { manifest: PluginManifest { enabled: on, ..p.manifest }, ..p }
}

/// The plugin with its enabled flag cleared and its loaded flag dropped, as
/// disabling leaves it.
pub open spec fn as_disabled(p: PluginInfo) -> PluginInfo {
    PluginInfo { manifest: PluginManifest { enabled: false, ..p.manifest }, loaded: false, ..p }
}

/// A freshly registered plugin: not loaded, no error.
pub open spec fn fresh_info(manifest: PluginManifest, path: String) -> PluginInfo {
    PluginInfo { manifest, path, loaded: false, error: None }
}

/// How many registered plugins are enabled.
pub open spec fn enabled_count(ps: Seq<PluginInfo>) -> int
    decreases ps.len(),
{
    if ps.len() == 0 {
        0
    } else {
        enabled_count(ps.drop_last()) + if ps.last().manifest.enabled {
            1int
        } else {
            0int
        }
    }
}

/// How many registered plugins are loaded.
pub open spec fn loaded_count(ps: Seq<PluginInfo>) -> int
    decreases ps.len(),
{
    if ps.len() == 0 {
        0
    } else {
        loaded_count(ps.drop_last()) + if ps.last().loaded {
            1int
        } else {
            0int
        }
    }
}

/// How many registered plugins carry an error.
pub open spec fn error_count(ps: Seq<PluginInfo>) -> int
    decreases ps.len(),
{
    if ps.len() == 0 {
        0
    } else {
        error_count(ps.drop_last()) + if ps.last().error is Some {
            1int
        } else {
            0int
        }
    }
}

/// Returns a copy of the strings, equal to the originals.
fn clone_string_vec(v: &Vec<String>) -> (r: Vec<String>)
    ensures
        r@ == v@,
{
    let mut out: Vec<String> = Vec::new();
    let n: usize = v.len();
    let mut i: usize = 0;
    while i < n
        invariant
            i <= n,
            n == v@.len(),
            out@.len() == i,
            forall|k: int| 0 <= k < i ==> out@[k] == v@[k],
        decreases n - i,
    {
        out.push(v[i].clone());
        i += 1;
    }
    proof {
        assert(out@ =~= v@);
    }
    out
}

/// Returns a copy of the string pairs, equal to the originals.
fn clone_pair_vec(v: &Vec<(String, String)>) -> (r: Vec<(String, String)>)
    ensures
        r@ == v@,
{
    let mut out: Vec<(String, String)> = Vec::new();
    let n: usize = v.len();
    let mut i: usize = 0;
    while i < n
        invariant
            i <= n,
            n == v@.len(),
            out@.len() == i,
            forall|k: int| 0 <= k < i ==> out@[k] == v@[k],
        decreases n - i,
    {
        let p = &v[i];
        out.push((p.0.clone(), p.1.clone()));
        i += 1;
    }
    proof {
        assert(out@ =~= v@);
    }
    out
}

fn clone_opt_string(o: &Option<String>) -> (r: Option<String>)
    ensures
        r == *o,
{
    match o {
        Some(s) => Some(s.clone()),
        None => None,
    }
}

/// Returns a copy of the manifest.
pub fn clone_manifest(m: &PluginManifest) -> (r: PluginManifest)
    ensures
        manifest_eq(*m, r),
{
    PluginManifest {
        id: m.id.clone(),
        name: m.name.clone(),
        version: m.version.clone(),
        description: clone_opt_string(&m.description),
        author: clone_opt_string(&m.author),
        main: m.main.clone(),
        permissions: clone_string_vec(&m.permissions),
        dependencies: clone_pair_vec(&m.dependencies),
        enabled: m.enabled,
    }
}

/// Returns a copy of the registration.
pub fn clone_plugin_info(p: &PluginInfo) -> (r: PluginInfo)
    ensures
        info_eq(*p, r),
{
    PluginInfo {
        manifest: clone_manifest(&p.manifest),
        path: p.path.clone(),
        loaded: p.loaded,
        error: clone_opt_string(&p.error),
    }
}

/// Checks a parsed manifest as the registry accepts it: identifier, display
/// name and entry point must be present, the entry-point file must exist
/// (the host passes that as `main_file_exists`), and an empty version is
/// defaulted.  The checks apply in that order.
pub fn validate_manifest(manifest: PluginManifest, main_file_exists: bool) -> (r: Result<
    PluginManifest,
    String,
>)
    ensures
        manifest.id@.len() == 0 ==> (r matches Err(e) && e@ == "Plugin ID cannot be empty"@),
        manifest.id@.len() > 0 && manifest.name@.len() == 0 ==> (r matches Err(e) && e@
            == "Plugin name cannot be empty"@),
        manifest.id@.len() > 0 && manifest.name@.len() > 0 && manifest.main@.len() == 0 ==> (
        r matches Err(e) && e@ == "Plugin main file cannot be empty"@),
        manifest.id@.len() > 0 && manifest.name@.len() > 0 && manifest.main@.len() > 0
            && !main_file_exists ==> (r matches Err(e) && e@ == "Main file '"@ + manifest.main@
            + "' not found"@),
        manifest.id@.len() > 0 && manifest.name@.len() > 0 && manifest.main@.len() > 0
            && main_file_exists ==> (r matches Ok(m) && m.id == manifest.id && m.name
            == manifest.name && m.description == manifest.description && m.author
            == manifest.author && m.main == manifest.main && m.permissions == manifest.permissions
            && m.dependencies == manifest.dependencies && m.enabled == manifest.enabled && (
        manifest.version@.len() == 0 ==> m.version@ == "0.1.0"@) && (manifest.version@.len() > 0
            ==> m.version == manifest.version)),
{
    if manifest.id.as_str().is_empty() {
        return Err(String::from_str("Plugin ID cannot be empty"));
    }
    if manifest.name.as_str().is_empty() {
        return Err(String::from_str("Plugin name cannot be empty"));
    }
    if manifest.main.as_str().is_empty() {
        return Err(String::from_str("Plugin main file cannot be empty"));
    }
    if !main_file_exists {
        return Err(
            String::from_str("Main file '").concat(manifest.main.as_str()).concat("' not found"),
        );
    }
    let mut checked = manifest;
    if checked.version.as_str().is_empty() {
        checked.version = String::from_str("0.1.0");
    }
    Ok(checked)
}

/// The registry.
pub struct PluginManager {
    plugins: Vec<PluginInfo>,
    plugins_dir: String,
}

impl View for PluginManager {
    type V = Seq<PluginInfo>;

    closed spec fn view(&self) -> Seq<PluginInfo> {
        self.plugins@
    }
}

impl PluginManager {
    /// Well-formedness: one registration per identifier.
    pub open spec fn wf(&self) -> bool {
        distinct_plugin_ids(self@)
    }

    /// Where the plugin bundles live.
    pub closed spec fn dir_view(&self) -> Seq<char> {
        self.plugins_dir@
    }

    /// An empty registry over the given bundles directory.  Discovery is
    /// the host's part: it parses each bundle's manifest and feeds it in
    /// through [`PluginManager::add_discovered`].
    pub fn new(plugins_dir: String) -> (m: PluginManager)
        ensures
            m.wf(),
            m@ == Seq::<PluginInfo>::empty(),
            m.dir_view() == plugins_dir@,
    {
        PluginManager { plugins: Vec::new(), plugins_dir }
    }

    fn find_index(&self, id: &str) -> (r: Option<usize>)
        ensures
            r matches Some(i) ==> i < self@.len() && self@[i as int].manifest.id@ == id@,
            r is None ==> forall|i: int|
                0 <= i < self@.len() ==> (#[trigger] self@[i]).manifest.id@ != id@,
    {
        let n: usize = self.plugins.len();
        let mut i: usize = 0;
        while i < n
            invariant
                i <= n,
                n == self@.len(),
                forall|j: int| 0 <= j < i ==> (#[trigger] self@[j]).manifest.id@ != id@,
            decreases n - i,
        {
            if string_eq_str(&self.plugins[i].manifest.id, id) {
                return Some(i);
            }
            i += 1;
        }
        None
    }

    /// All registrations, in registry order, as copies.
    pub fn get_plugins(&self) -> (r: Vec<PluginInfo>)
        ensures
            r@.len() == self@.len(),
            forall|k: int| 0 <= k < self@.len() ==> info_eq(self@[k], #[trigger] r@[k]),
    {
        let mut out: Vec<PluginInfo> = Vec::new();
        let n: usize = self.plugins.len();
        let mut i: usize = 0;
        while i < n
            invariant
                i <= n,
                n == self@.len(),
                out@.len() == i,
                forall|k: int| 0 <= k < i ==> info_eq(self@[k], #[trigger] out@[k]),
            decreases n - i,
        {
            out.push(clone_plugin_info(&self.plugins[i]));
            i += 1;
        }
        out
    }

    /// The registration carrying `id`, if any.
    pub fn get_plugin(&self, id: &str) -> (r: Option<PluginInfo>)
        requires
            self.wf(),
        ensures
            r is Some <==> has_plugin(self@, id@),
            r matches Some(p) ==> info_eq(self@[idx_of(self@, id@)], p),
    {
        let found = self.find_index(id);
        match found {
            Some(i) => {
                proof {
                    let j = idx_of(self@, id@);
                    assert(has_plugin(self@, id@));
                    assert(0 <= j < self@.len() && self@[j].manifest.id@ == id@);
                    assert(j == i);
                }
                Some(clone_plugin_info(&self.plugins[i]))
            },
            None => {
                proof {
                    if has_plugin(self@, id@) {
                        let j = choose|j: int|
                            0 <= j < self@.len() && (#[trigger] self@[j]).manifest.id@ == id@;
                    }
                }
                None
            },
        }
    }

    /// Sets the enabled flag of the plugin carrying `id`; fails when no
    /// such plugin is registered.  Persisting the changed manifest is the
    /// host's part.
    pub fn enable_plugin(&mut self, id: &str) -> (r: Result<(), String>)
        requires
            old(self).wf(),
        ensures
            final(self).wf(),
            final(self).dir_view() == old(self).dir_view(),
            r is Ok <==> has_plugin(old(self)@, id@),
            r is Ok ==> final(self)@ == old(self)@.update(
                idx_of(old(self)@, id@),
                with_enabled(old(self)@[idx_of(old(self)@, id@)], true),
            ),
            r is Err ==> final(self)@ == old(self)@,
            r matches Err(e) ==> e@ == "Plugin not found: "@ + id@,
    {
        let found = self.find_index(id);
        match found {
            Some(i) => {
                let ghost ps0 = self@;
                let mut p = self.plugins.remove(i);
                p.manifest.enabled = true;
                let ghost gp = p;
                self.plugins.insert(i, p);
                proof {
                    assert(self@ =~= ps0.update(i as int, gp));
                    let j = idx_of(ps0, id@);
                    assert(has_plugin(ps0, id@));
                    assert(0 <= j < ps0.len() && ps0[j].manifest.id@ == id@);
                    assert(j == i);
                    assert(gp == with_enabled(ps0[i as int], true));
                    lemma_update_same_id_distinct(ps0, i as int, gp);
                }
                Ok(())
            },
            None => {
                proof {
                    if has_plugin(self@, id@) {
                        let j = choose|j: int|
                            0 <= j < self@.len() && (#[trigger] self@[j]).manifest.id@ == id@;
                    }
                }
                Err(String::from_str("Plugin not found: ").concat(id))
            },
        }
    }

    /// Clears the enabled flag of the plugin carrying `id` and drops its
    /// loaded flag; fails when no such plugin is registered.
    pub fn disable_plugin(&mut self, id: &str) -> (r: Result<(), String>)
        requires
            old(self).wf(),
        ensures
            final(self).wf(),
            final(self).dir_view() == old(self).dir_view(),
            r is Ok <==> has_plugin(old(self)@, id@),
            r is Ok ==> final(self)@ == old(self)@.update(
                idx_of(old(self)@, id@),
                as_disabled(old(self)@[idx_of(old(self)@, id@)]),
            ),
            r is Err ==> final(self)@ == old(self)@,
            r matches Err(e) ==> e@ == "Plugin not found: "@ + id@,
    {
        let found = self.find_index(id);
        match found {
            Some(i) => {
                let ghost ps0 = self@;
                let mut p = self.plugins.remove(i);
                p.manifest.enabled = false;
                p.loaded = false;
                let ghost gp = p;
                self.plugins.insert(i, p);
                proof {
                    assert(self@ =~= ps0.update(i as int, gp));
                    let j = idx_of(ps0, id@);
                    assert(has_plugin(ps0, id@));
                    assert(0 <= j < ps0.len() && ps0[j].manifest.id@ == id@);
                    assert(j == i);
                    assert(gp == as_disabled(ps0[i as int]));
                    lemma_update_same_id_distinct(ps0, i as int, gp);
                }
                Ok(())
            },
            None => {
                proof {
                    if has_plugin(self@, id@) {
                        let j = choose|j: int|
                            0 <= j < self@.len() && (#[trigger] self@[j]).manifest.id@ == id@;
                    }
                }
                Err(String::from_str("Plugin not found: ").concat(id))
            },
        }
    }

    /// Registers a plugin discovered in the bundles directory, replacing
    /// any earlier registration under the same identifier, as a fresh
    /// discovery pass does.
    pub fn add_discovered(&mut self, manifest: PluginManifest, path: String)
        requires
            old(self).wf(),
        ensures
            final(self).wf(),
            final(self).dir_view() == old(self).dir_view(),
            has_plugin(old(self)@, manifest.id@) ==> final(self)@ == old(self)@.update(
                idx_of(old(self)@, manifest.id@),
                fresh_info(manifest, path),
            ),
            !has_plugin(old(self)@, manifest.id@) ==> final(self)@ == old(self)@.push(
                fresh_info(manifest, path),
            ),
    {
        let found = self.find_index(manifest.id.as_str());
        let info = PluginInfo { manifest, path, loaded: false, error: None };
        let ghost ginfo = info;
        match found {
            Some(i) => {
                let ghost ps0 = self@;
                let _replaced = self.plugins.remove(i);
                self.plugins.insert(i, info);
                proof {
                    assert(self@ =~= ps0.update(i as int, ginfo));
                    let j = idx_of(ps0, ginfo.manifest.id@);
                    assert(has_plugin(ps0, ginfo.manifest.id@));
                    assert(0 <= j < ps0.len() && ps0[j].manifest.id@ == ginfo.manifest.id@);
                    assert(j == i);
                    lemma_update_same_id_distinct(ps0, i as int, ginfo);
                }
            },
            None => {
                let ghost ps0 = self@;
                self.plugins.push(info);
                proof {
                    assert forall|a: int, b: int|
                        0 <= a < self@.len() && 0 <= b < self@.len() && a != b implies (
                    #[trigger] self@[a]).manifest.id@ != (#[trigger] self@[b]).manifest.id@ by {
                        if a < ps0.len() && b < ps0.len() {
                            assert(self@[a] == ps0[a]);
                            assert(self@[b] == ps0[b]);
                        } else if a < ps0.len() {
                            assert(self@[a] == ps0[a]);
                            assert(self@[b] == ginfo);
                        } else {
                            assert(self@[a] == ginfo);
                            assert(self@[b] == ps0[b]);
                        }
                    }
                }
            },
        }
    }

    /// Registers a new plugin under its manifest identifier; fails when the
    /// identifier is already taken.  Copying the bundle into the directory
    /// is the host's part.
    pub fn install_plugin(&mut self, manifest: PluginManifest, path: String) -> (r: Result<
        String,
        String,
    >)
        requires
            old(self).wf(),
        ensures
            final(self).wf(),
            final(self).dir_view() == old(self).dir_view(),
            r is Ok <==> !has_plugin(old(self)@, manifest.id@),
            r matches Ok(installed) ==> installed@ == manifest.id@ && final(self)@ == old(
                self,
            )@.push(fresh_info(manifest, path)),
            r is Err ==> final(self)@ == old(self)@,
            r matches Err(e) ==> e@ == "Plugin '"@ + manifest.id@ + "' already installed"@,
    {
        let found = self.find_index(manifest.id.as_str());
        match found {
            Some(_) => {
                proof {
                    assert(has_plugin(self@, manifest.id@));
                }
                Err(
                    String::from_str("Plugin '").concat(manifest.id.as_str()).concat(
                        "' already installed",
                    ),
                )
            },
            None => {
                proof {
                    if has_plugin(self@, manifest.id@) {
                        let j = choose|j: int|
                            0 <= j < self@.len() && (#[trigger] self@[j]).manifest.id@
                                == manifest.id@;
                    }
                }
                let installed = manifest.id.clone();
                let ghost ps0 = self@;
                let info = PluginInfo { manifest, path, loaded: false, error: None };
                let ghost ginfo = info;
                self.plugins.push(info);
                proof {
                    assert forall|a: int, b: int|
                        0 <= a < self@.len() && 0 <= b < self@.len() && a != b implies (
                    #[trigger] self@[a]).manifest.id@ != (#[trigger] self@[b]).manifest.id@ by {
                        if a < ps0.len() && b < ps0.len() {
                            assert(self@[a] == ps0[a]);
                            assert(self@[b] == ps0[b]);
                        } else if a < ps0.len() {
                            assert(self@[a] == ps0[a]);
                            assert(self@[b] == ginfo);
                        } else {
                            assert(self@[a] == ginfo);
                            assert(self@[b] == ps0[b]);
                        }
                    }
                }
                Ok(installed)
            },
        }
    }

    /// Drops the registration carrying `id`; fails when no such plugin is
    /// registered.  Removing the bundle directory is the host's part.
    pub fn uninstall_plugin(&mut self, id: &str) -> (r: Result<(), String>)
        requires
            old(self).wf(),
        ensures
            final(self).wf(),
            final(self).dir_view() == old(self).dir_view(),
            r is Ok <==> has_plugin(old(self)@, id@),
            r is Ok ==> final(self)@ == old(self)@.remove(idx_of(old(self)@, id@)),
            r is Err ==> final(self)@ == old(self)@,
            r matches Err(e) ==> e@ == "Plugin not found: "@ + id@,
    {
        let found = self.find_index(id);
        match found {
            Some(i) => {
                let ghost ps0 = self@;
                let _removed = self.plugins.remove(i);
                proof {
                    let j = idx_of(ps0, id@);
                    assert(has_plugin(ps0, id@));
                    assert(0 <= j < ps0.len() && ps0[j].manifest.id@ == id@);
                    assert(j == i);
                    ps0.remove_ensures(i as int);
                    assert forall|a: int, b: int|
                        0 <= a < self@.len() && 0 <= b < self@.len() && a != b implies (
                    #[trigger] self@[a]).manifest.id@ != (#[trigger] self@[b]).manifest.id@ by {
                        let a0 = if a < i as int {
                            a
                        } else {
                            a + 1
                        };
                        let b0 = if b < i as int {
                            b
                        } else {
                            b + 1
                        };
                        assert(self@[a] == ps0[a0]);
                        assert(self@[b] == ps0[b0]);
                    }
                }
                Ok(())
            },
            None => {
                proof {
                    if has_plugin(self@, id@) {
                        let j = choose|j: int|
                            0 <= j < self@.len() && (#[trigger] self@[j]).manifest.id@ == id@;
                    }
                }
                Err(String::from_str("Plugin not found: ").concat(id))
            },
        }
    }

    /// How many plugins are registered, enabled, loaded, and failed.
    pub fn get_stats(&self) -> (r: PluginManagerStats)
        ensures
            r.total == self@.len(),
            r.enabled == enabled_count(self@),
            r.loaded == loaded_count(self@),
            r.errors == error_count(self@),
    {
        let n: usize = self.plugins.len();
        let mut enabled: usize = 0;
        let mut loaded: usize = 0;
        let mut errors: usize = 0;
        let mut i: usize = 0;
        proof {
            assert(self@.take(0) =~= Seq::<PluginInfo>::empty());
        }
        while i < n
            invariant
                i <= n,
                n == self@.len(),
                enabled <= i,
                loaded <= i,
                errors <= i,
                enabled == enabled_count(self@.take(i as int)),
                loaded == loaded_count(self@.take(i as int)),
                errors == error_count(self@.take(i as int)),
            decreases n - i,
        {
            proof {
                assert(self@.take(i + 1).drop_last() =~= self@.take(i as int));
                assert(self@.take(i + 1).last() == self@[i as int]);
            }
            let p = &self.plugins[i];
            if p.manifest.enabled {
                enabled += 1;
            }
            if p.loaded {
                loaded += 1;
            }
            if p.error.is_some() {
                errors += 1;
            }
            i += 1;
        }
        proof {
            assert(self@.take(n as int) =~= self@);
        }
        PluginManagerStats { total: n, enabled, loaded, errors }
    }
}

/// Replacing a plugin with one carrying the same identifier keeps the
/// identifiers distinct.
proof fn lemma_update_same_id_distinct(ps: Seq<PluginInfo>, i: int, p: PluginInfo)
    requires
        distinct_plugin_ids(ps),
        0 <= i < ps.len(),
        p.manifest.id@ == ps[i].manifest.id@,
    ensures
        distinct_plugin_ids(ps.update(i, p)),
{
    let ps2 = ps.update(i, p);
    assert forall|a: int, b: int|
        0 <= a < ps2.len() && 0 <= b < ps2.len() && a != b implies (#[trigger] ps2[a]).manifest.id@
        != (#[trigger] ps2[b]).manifest.id@ by {
        let pa = if a == i {
            p
        } else {
            ps[a]
        };
        let pb = if b == i {
            p
        } else {
            ps[b]
        };
        assert(ps2[a] == pa);
        assert(ps2[b] == pb);
        assert(ps[a].manifest.id@ != ps[b].manifest.id@);
    }
}

} // verus!
