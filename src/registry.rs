use vstd::prelude::*;

use crate::resolve::ResolveError;
use crate::version::{ReqVer, SemVer, ver_le, ver_lt};
use vstd::string::StringExecFns;

verus! {

/// The loader or API layer that a mod runs on.
#[derive(Clone, Copy, PartialEq, Eq, Structural, Debug, Hash)]
pub enum ModAPI {
    DataPack,
    Forge,
    Fabric,
    LiteLoader,
}

/// A dependency of a mod: another mod and the range of its versions that is required.
#[derive(Debug)]
pub struct Dep {
    pub id: String,
    pub req: ReqVer,
}

/// What the registry knows of one version of a mod.
#[derive(Debug)]
pub struct Module {
    pub name: String,
    pub spdx: String,
    pub url: Vec<String>,
    pub md5: String,
    pub dep: Vec<Dep>,
    pub mc_dep: ReqVer,
    pub api_dep: (ModAPI, ReqVer),
}

/// One version of a mod with its metadata.
#[derive(Debug)]
pub struct Release {
    pub version: SemVer,
    pub module: Module,
}

/// Every known version of one mod.
#[derive(Debug)]
pub struct ModEntry {
    pub id: String,
    pub releases: Vec<Release>,
}

/// The platform version targeted and the loader versions installed.
#[derive(Debug)]
pub struct Context {
    pub platform: SemVer,
    pub loaders: Vec<(ModAPI, SemVer)>,
}

impl Module {
    /// The module accepts the platform version, and a loader of the kind it
    /// needs is installed at a version in its range.
    pub open spec fn compatible(self, ctx: Context) -> bool {
        &&& self.mc_dep.has(ctx.platform)
        &&& exists|i: int|
            0 <= i < ctx.loaders@.len() && (#[trigger] ctx.loaders@[i]).0 == self.api_dep.0
                && self.api_dep.1.has(ctx.loaders@[i].1)
    }

    /// Whether the module can be installed under the context.
    pub fn check_inst(&self, ctx: &Context) -> (r: bool)
        ensures
            r == self.compatible(*ctx),
    {
        if !ctx.platform.within(self.mc_dep) {
            return false;
        }
        let mut i: usize = 0;
        while i < ctx.loaders.len()
            invariant
                i <= ctx.loaders@.len(),
                self.mc_dep.has(ctx.platform),
                forall|j: int|
                    0 <= j < i ==> !((#[trigger] ctx.loaders@[j]).0 == self.api_dep.0
                        && self.api_dep.1.has(ctx.loaders@[j].1)),
            decreases ctx.loaders.len() - i,
        {
            let (kind, v) = ctx.loaders[i];
            if kind == self.api_dep.0 && v.within(self.api_dep.1) {
                assert(ctx.loaders@[i as int].0 == self.api_dep.0 && self.api_dep.1.has(
                    ctx.loaders@[i as int].1,
                ));
                return true;
            }
            i = i + 1;
        }
        false
    }
}

/// Why the metadata of a module was refused.
#[derive(Clone, Copy, PartialEq, Eq, Structural, Debug)]
pub enum ModuleError {
    /// The license is not an SPDX expression.
    License,
    /// The download location at this index is not a URL.
    Url(usize),
}

/// The text is an SPDX license expression.
pub uninterp spec fn spdx_valid(s: Seq<char>) -> bool;

/// The text is an absolute URL.
pub uninterp spec fn url_valid(s: Seq<char>) -> bool;

/// Relies on spdx::Expression::parse: whether the text parses as a license
/// expression of SPDX short identifiers.
#[verifier::external_body]
fn license_ok(s: &str) -> (r: bool)
    ensures
        r == spdx_valid(s@),
{
    spdx::Expression::parse(s).is_ok()
}

/// Relies on url::Url::parse: whether the text parses as an absolute URL.
#[verifier::external_body]
fn url_ok(s: &str) -> (r: bool)
    ensures
        r == url_valid(s@),
{
    url::Url::parse(s).is_ok()
}

impl Module {
    /// Builds the metadata of a module, checking that the license is an SPDX
    /// expression and that every download location is a URL.
    pub fn new(
        name: String,
        spdx: String,
        url: Vec<String>,
        md5: String,
        dep: Vec<Dep>,
        mc_dep: ReqVer,
        api_dep: (ModAPI, ReqVer),
    ) -> (r: Result<Module, ModuleError>)
        ensures
            !spdx_valid(spdx@) ==> r == Err::<Module, ModuleError>(ModuleError::License),
            spdx_valid(spdx@) ==> match r {
                Ok(m) => {
                    &&& forall|i: int| 0 <= i < url@.len() ==> url_valid(#[trigger] url@[i]@)
                    &&& m.name == name && m.spdx == spdx && m.url == url && m.md5 == md5
                    &&& m.dep == dep && m.mc_dep == mc_dep && m.api_dep == api_dep
                },
                Err(ModuleError::Url(i)) => {
                    &&& i < url@.len()
                    &&& !url_valid(url@[i as int]@)
                    &&& forall|j: int| 0 <= j < i ==> url_valid(#[trigger] url@[j]@)
                },
                Err(ModuleError::License) => false,
            },
    {
        if !license_ok(spdx.as_str()) {
            return Err(ModuleError::License);
        }
        let mut i: usize = 0;
        while i < url.len()
            invariant
                i <= url@.len(),
                spdx_valid(spdx@),
                forall|j: int| 0 <= j < i ==> url_valid(#[trigger] url@[j]@),
            decreases url.len() - i,
        {
            if !url_ok(url[i].as_str()) {
                return Err(ModuleError::Url(i));
            }
            i = i + 1;
        }
        Ok(Module { name, spdx, url, md5, dep, mc_dep, api_dep })
    }
}

/// `e` is the first entry of the table for the mod `id`.
pub open spec fn first_entry(es: Seq<ModEntry>, id: Seq<char>, e: int) -> bool {
    &&& 0 <= e < es.len()
    &&& es[e].id@ == id
    &&& forall|k: int| 0 <= k < e ==> (#[trigger] es[k]).id@ != id
}

/// The table has an entry for the mod `id`.
pub open spec fn known(es: Seq<ModEntry>, id: Seq<char>) -> bool {
    exists|e: int| 0 <= e < es.len() && (#[trigger] es[e]).id@ == id
}

/// Release `k` of the entry lies in the range and can be installed under the context.
pub open spec fn candidate(m: ModEntry, k: int, range: ReqVer, ctx: Context) -> bool {
    &&& 0 <= k < m.releases@.len()
    &&& range.has(m.releases@[k].version)
    &&& m.releases@[k].module.compatible(ctx)
}

/// Release `k` is a candidate and no candidate has a higher version.
pub open spec fn newest_candidate(m: ModEntry, k: int, range: ReqVer, ctx: Context) -> bool {
    &&& candidate(m, k, range, ctx)
    &&& forall|j: int|
        #[trigger] candidate(m, j, range, ctx) ==> ver_le(
            m.releases@[j].version,
            m.releases@[k].version,
        )
}

/// Release `k` is the first of the candidates of highest version.
pub open spec fn first_newest(m: ModEntry, k: int, range: ReqVer, ctx: Context) -> bool {
    &&& newest_candidate(m, k, range, ctx)
    &&& forall|j: int| 0 <= j < k ==> !#[trigger] newest_candidate(m, j, range, ctx)
}

/// The index of the release of highest version that lies in the range and
/// can be installed under the context; among equal versions the first.
pub fn pick_release(m: &ModEntry, range: ReqVer, ctx: &Context) -> (r: Option<usize>)
    ensures
        match r {
            Some(k) => first_newest(*m, k as int, range, *ctx),
            None => forall|j: int| !candidate(*m, j, range, *ctx),
        },
{
    let mut best: Option<usize> = None;
    let mut i: usize = 0;
    while i < m.releases.len()
        invariant
            i <= m.releases@.len(),
            match best {
                Some(k) => k < i && candidate(*m, k as int, range, *ctx) && (forall|j: int|
                    0 <= j < i && #[trigger] candidate(*m, j, range, *ctx) ==> ver_le(
                        m.releases@[j].version,
                        m.releases@[k as int].version,
                    )) && (forall|j: int|
                    0 <= j < k && #[trigger] candidate(*m, j, range, *ctx) ==> ver_lt(
                        m.releases@[j].version,
                        m.releases@[k as int].version,
                    )),
                None => forall|j: int| 0 <= j < i ==> !#[trigger] candidate(*m, j, range, *ctx),
            },
        decreases m.releases.len() - i,
    {
        let rel = &m.releases[i];
        if rel.version.within(range) && rel.module.check_inst(ctx) {
            match best {
                None => {
                    best = Some(i);
                },
                Some(k) => {
                    if m.releases[k].version.precedes(&rel.version) {
                        best = Some(i);
                    }
                },
            }
        }
        i = i + 1;
    }
    proof {
        if let Some(k) = best {
            assert forall|j: int| 0 <= j < k implies !#[trigger] newest_candidate(*m, j, range, *ctx) by {
                if newest_candidate(*m, j, range, *ctx) {
                    assert(candidate(*m, k as int, range, *ctx));
                }
            }
        }
    }
    best
}

/// Release `i` has a lower version than release `j`.
pub open spec fn lower_at(rs: Seq<Release>, i: int, j: int) -> bool {
    ver_lt(rs[i].version, rs[j].version)
}

/// The releases are in strictly ascending order of version.
pub open spec fn ascending(rs: Seq<Release>) -> bool {
    forall|i: int, j: int| 0 <= i < j < rs.len() ==> #[trigger] lower_at(rs, i, j)
}

/// `after` holds `rel` and every release of `before` of another version, and
/// nothing else.
pub open spec fn with_release(before: Seq<Release>, after: Seq<Release>, rel: Release) -> bool {
    &&& exists|i: int| 0 <= i < after.len() && after[i] == rel
    &&& forall|j: int|
        0 <= j < before.len() && (#[trigger] before[j]).version != rel.version ==> exists|i: int|
            0 <= i < after.len() && after[i] == before[j]
    &&& forall|i: int|
        0 <= i < after.len() ==> (#[trigger] after[i]) == rel || exists|j: int|
            0 <= j < before.len() && before[j].version != rel.version && after[i] == before[j]
}

/// Putting a release between the smaller and the greater versions keeps the
/// order and adds just that release.
proof fn lemma_insert_sorted(before: Seq<Release>, k: int, g: Release)
    requires
        ascending(before),
        0 <= k <= before.len(),
        forall|j: int| 0 <= j < k ==> ver_lt((#[trigger] before[j]).version, g.version),
        k < before.len() ==> ver_lt(g.version, before[k].version),
    ensures
        ascending(before.insert(k, g)),
        with_release(before, before.insert(k, g), g),
{
    let after = before.insert(k, g);
    assert forall|a: int, b: int| 0 <= a < b < after.len() implies #[trigger] lower_at(after, a, b) by {
        if b < k {
            assert(after[a] == before[a] && after[b] == before[b]);
            assert(lower_at(before, a, b));
        } else if b == k {
            assert(after[a] == before[a]);
        } else if a < k {
            assert(after[a] == before[a] && after[b] == before[b - 1]);
            if b - 1 > k {
                assert(lower_at(before, k, b - 1));
            }
        } else if a == k {
            assert(after[b] == before[b - 1]);
            if b - 1 > k {
                assert(lower_at(before, k, b - 1));
            }
        } else {
            assert(after[a] == before[a - 1] && after[b] == before[b - 1]);
            assert(lower_at(before, a - 1, b - 1));
        }
    }
    assert(after[k] == g);
    assert forall|j: int| 0 <= j < before.len() && (#[trigger] before[j]).version != g.version implies exists|i: int|
        0 <= i < after.len() && after[i] == before[j] by {
        if j < k {
            assert(after[j] == before[j]);
        } else {
            assert(after[j + 1] == before[j]);
        }
    }
    assert forall|i: int| 0 <= i < after.len() implies (#[trigger] after[i]) == g || exists|j: int|
        0 <= j < before.len() && before[j].version != g.version && after[i] == before[j] by {
        if i < k {
            assert(after[i] == before[i]);
            assert(before[i].version != g.version);
        } else if i > k {
            assert(after[i] == before[i - 1]);
            if i - 1 > k {
                assert(lower_at(before, k, i - 1));
            }
            assert(before[i - 1].version != g.version);
        }
    }
}

/// Putting a release in the place of the one of the same version keeps the
/// order and swaps just that release.
proof fn lemma_replace_sorted(before: Seq<Release>, k: int, g: Release)
    requires
        ascending(before),
        0 <= k < before.len(),
        before[k].version == g.version,
    ensures
        ascending(before.update(k, g)),
        with_release(before, before.update(k, g), g),
{
    let after = before.update(k, g);
    assert forall|a: int, b: int| 0 <= a < b < after.len() implies #[trigger] lower_at(after, a, b) by {
        assert(after[a].version == before[a].version);
        assert(after[b].version == before[b].version);
        assert(lower_at(before, a, b));
    }
    assert(after[k] == g);
    assert forall|j: int| 0 <= j < before.len() && (#[trigger] before[j]).version != g.version implies exists|i: int|
        0 <= i < after.len() && after[i] == before[j] by {
        assert(after[j] == before[j]);
    }
    assert forall|i: int| 0 <= i < after.len() implies (#[trigger] after[i]) == g || exists|j: int|
        0 <= j < before.len() && before[j].version != g.version && after[i] == before[j] by {
        if i != k {
            assert(after[i] == before[i]);
            if before[i].version == g.version {
                if i < k {
                    assert(lower_at(before, i, k));
                } else {
                    assert(lower_at(before, k, i));
                }
            }
        }
    }
}

/// Puts a release in its place by version, replacing the one of the same version.
fn place(rs: &mut Vec<Release>, rel: Release)
    requires
        ascending(old(rs)@),
    ensures
        ascending(final(rs)@),
        with_release(old(rs)@, final(rs)@, rel),
{
    let ghost before = rs@;
    let v = rel.version;
    let mut k: usize = 0;
    let mut done = false;
    while k < rs.len() && !done
        invariant
            k <= rs@.len(),
            rs@ == before,
            forall|j: int| 0 <= j < k ==> ver_lt((#[trigger] before[j]).version, v),
            done ==> k < before.len() && ver_le(v, before[k as int].version),
        decreases rs.len() - k + if done {
            0int
        } else {
            1int
        },
    {
        if rs[k].version.precedes(&v) {
            k = k + 1;
        } else {
            done = true;
        }
    }
    let same = k < rs.len() && rs[k].version == v;
    let ghost g = rel;
    if same {
        rs.remove(k);
        rs.insert(k, rel);
        proof {
            lemma_replace_sorted(before, k as int, g);
            assert(rs@ =~= before.update(k as int, g));
        }
    } else {
        rs.insert(k, rel);
        proof {
            lemma_insert_sorted(before, k as int, g);
        }
    }
}

/// No two entries are for the same mod, and the releases of each are in
/// strictly ascending order of version.
pub open spec fn table_wf(es: Seq<ModEntry>) -> bool {
    &&& forall|i: int, j: int| 0 <= i < j < es.len() ==> (#[trigger] es[i]).id@ != (#[trigger] es[j]).id@
    &&& forall|e: int| 0 <= e < es.len() ==> ascending((#[trigger] es[e]).releases@)
}

/// A table of mods read from a file: each mod with its known versions.
pub struct FileRegistry {
    data: Vec<ModEntry>,
}

impl FileRegistry {
    #[verifier::type_invariant]
    spec fn inv(self) -> bool {
        table_wf(self.data@)
    }

    pub closed spec fn entries(&self) -> Seq<ModEntry> {
        self.data@
    }

    /// Every known version of the mod, in ascending order.
    pub fn all_versions(&self, mod_id: &str) -> (r: Option<Vec<SemVer>>)
        ensures
            match r {
                Some(vs) => exists|e: int|
                    first_entry(self.entries(), mod_id@, e) && vs@.len() == self.entries()[e].releases@.len()
                        && forall|i: int|
                        0 <= i < vs@.len() ==> vs@[i] == (#[trigger] self.entries()[e].releases@[i]).version,
                None => !known(self.entries(), mod_id@),
            },
            r matches Some(vs) ==> forall|i: int, j: int|
                0 <= i < j < vs@.len() ==> ver_lt(#[trigger] vs@[i], #[trigger] vs@[j]),
    {
        proof {
            use_type_invariant(self);
        }
        let e = match self.find_entry(mod_id) {
            Some(e) => e,
            None => {
                return None;
            },
        };
        let rs = &self.data[e].releases;
        let mut vs: Vec<SemVer> = Vec::new();
        let mut i: usize = 0;
        while i < rs.len()
            invariant
                i <= rs@.len(),
                *rs == self.data@[e as int].releases,
                ascending(rs@),
                vs@.len() == i,
                forall|j: int| 0 <= j < i ==> vs@[j] == (#[trigger] rs@[j]).version,
            decreases rs.len() - i,
        {
            vs.push(rs[i].version);
            i = i + 1;
        }
        assert forall|a: int, b: int| 0 <= a < b < vs@.len() implies ver_lt(#[trigger] vs@[a], #[trigger] vs@[b]) by {
            assert(lower_at(rs@, a, b));
        }
        Some(vs)
    }

    /// A table that holds no mod.
    pub fn new() -> (r: FileRegistry)
        ensures
            r.entries() == Seq::<ModEntry>::empty(),
    {
        FileRegistry { data: Vec::new() }
    }

    /// Adds a version of a mod: to the mod's entry if it has one, else to a
    /// new entry at the end.
    pub fn insert(&mut self, id: String, version: SemVer, module: Module)
        ensures
            final(self).entries().len() == old(self).entries().len() + if known(
                old(self).entries(),
                id@,
            ) {
                0int
            } else {
                1int
            },
            exists|e: int|
                first_entry(final(self).entries(), id@, e) && with_release(
                    if known(old(self).entries(), id@) {
                        old(self).entries()[e].releases@
                    } else {
                        Seq::<Release>::empty()
                    },
                    final(self).entries()[e].releases@,
                    (Release { version, module }),
                ),
            forall|e: int|
                0 <= e < old(self).entries().len() ==> final(self).entries()[e].id@
                    == old(self).entries()[e].id@,
            forall|e: int|
                0 <= e < old(self).entries().len() && old(self).entries()[e].id@ != id@
                    ==> final(self).entries()[e] == old(self).entries()[e],
            forall|x: Seq<char>|
                x != id@ ==> (known(final(self).entries(), x) <==> known(old(self).entries(), x)),
    {
        proof {
            use_type_invariant(&*self);
        }
        let found = self.find_entry(id.as_str());
        let mut data: Vec<ModEntry> = Vec::new();
        std::mem::swap(&mut self.data, &mut data);
        let ghost before = data@;
        let rel = Release { version, module };
        let ghost g = rel;
        match found {
            None => {
                let mut rs: Vec<Release> = Vec::new();
                rs.push(rel);
                proof {
                    lemma_insert_sorted(Seq::<Release>::empty(), 0, g);
                    assert(rs@ =~= Seq::<Release>::empty().insert(0, g));
                }
                let e = data.len();
                data.push(ModEntry { id, releases: rs });
                assert(first_entry(data@, data@[e as int].id@, e as int));
                assert forall|x: Seq<char>| x != data@[e as int].id@ implies (known(data@, x) <==> known(
                    before,
                    x,
                )) by {
                    if known(data@, x) {
                        let w = choose|w: int| 0 <= w < data@.len() && (#[trigger] data@[w]).id@ == x;
                        assert(before[w].id@ == x);
                    }
                    if known(before, x) {
                        let w = choose|w: int| 0 <= w < before.len() && (#[trigger] before[w]).id@ == x;
                        assert(data@[w].id@ == x);
                    }
                }
            },
            Some(e) => {
                let mut entry = data.remove(e);
                place(&mut entry.releases, rel);
                data.insert(e, entry);
                assert(data@ =~= before.update(e as int, data@[e as int]));
                assert(data@[e as int].id@ == id@);
                assert(first_entry(data@, id@, e as int));
                assert(known(before, id@));
                assert forall|x: Seq<char>| known(data@, x) <==> known(before, x) by {
                    if known(data@, x) {
                        let w = choose|w: int| 0 <= w < data@.len() && (#[trigger] data@[w]).id@ == x;
                        assert(before[w].id@ == x);
                    }
                    if known(before, x) {
                        let w = choose|w: int| 0 <= w < before.len() && (#[trigger] before[w]).id@ == x;
                        assert(data@[w].id@ == x);
                    }
                }
            },
        }
        self.data = data;
    }

    /// The index of the first entry of the mod, if the table has one.
    pub fn find_entry(&self, mod_id: &str) -> (r: Option<usize>)
        ensures
            match r {
                Some(e) => first_entry(self.entries(), mod_id@, e as int),
                None => !known(self.entries(), mod_id@),
            },
    {
        let mut e: usize = 0;
        while e < self.data.len()
            invariant
                e <= self.data@.len(),
                forall|k: int| 0 <= k < e ==> (#[trigger] self.data@[k]).id@ != mod_id@,
            decreases self.data.len() - e,
        {
            if str_eq(self.data[e].id.as_str(), mod_id) {
                return Some(e);
            }
            e = e + 1;
        }
        None
    }

    pub fn entry(&self, e: usize) -> (r: &ModEntry)
        requires
            e < self.entries().len(),
        ensures
            *r == self.entries()[e as int],
    {
        &self.data[e]
    }

    pub fn len(&self) -> (r: usize)
        ensures
            r == self.entries().len(),
    {
        self.data.len()
    }
}

/// Whether two strings hold the same characters.
pub fn str_eq(a: &str, b: &str) -> (r: bool)
    ensures
        r == (a@ == b@),
{
    let n = a.unicode_len();
    if n != b.unicode_len() {
        return false;
    }
    let mut i: usize = 0;
    while i < n
        invariant
            n == a@.len(),
            n == b@.len(),
            i <= n,
            forall|j: int| 0 <= j < i ==> a@[j] == b@[j],
        decreases n - i,
    {
        if a.get_char(i) != b.get_char(i) {
            return false;
        }
        i = i + 1;
    }
    assert(a@ =~= b@);
    true
}

/// The registries that mods are looked up in.
pub enum Registry {
    File(FileRegistry),
}

impl Registry {
    pub open spec fn entries(&self) -> Seq<ModEntry> {
        match self {
            Registry::File(f) => f.entries(),
        }
    }

    pub fn find_entry(&self, mod_id: &str) -> (r: Option<usize>)
        ensures
            match r {
                Some(e) => first_entry(self.entries(), mod_id@, e as int),
                None => !known(self.entries(), mod_id@),
            },
    {
        match self {
            Registry::File(f) => f.find_entry(mod_id),
        }
    }

    pub fn entry(&self, e: usize) -> (r: &ModEntry)
        requires
            e < self.entries().len(),
        ensures
            *r == self.entries()[e as int],
    {
        match self {
            Registry::File(f) => f.entry(e),
        }
    }

    pub fn len(&self) -> (r: usize)
        ensures
            r == self.entries().len(),
    {
        match self {
            Registry::File(f) => f.len(),
        }
    }
}

/// A source of mods: what it knows of each mod, looked up by identifier.
pub trait Reg {
    spec fn table(&self) -> Seq<ModEntry>;

    /// Every known version of the mod, or nothing if the source has no such mod.
    fn query(&self, mod_id: &str) -> (r: Option<&ModEntry>)
        ensures
            match r {
                Some(m) => exists|e: int| first_entry(self.table(), mod_id@, e) && *m == self.table()[e],
                None => !known(self.table(), mod_id@),
            },
    ;
}

impl Reg for FileRegistry {
    open spec fn table(&self) -> Seq<ModEntry> {
        self.entries()
    }

    fn query(&self, mod_id: &str) -> (r: Option<&ModEntry>) {
        match self.find_entry(mod_id) {
            Some(e) => {
                let m = self.entry(e);
                assert(first_entry(self.table(), mod_id@, e as int) && *m == self.table()[e as int]);
                Some(m)
            },
            None => None,
        }
    }
}

impl Reg for Registry {
    open spec fn table(&self) -> Seq<ModEntry> {
        self.entries()
    }

    fn query(&self, mod_id: &str) -> (r: Option<&ModEntry>) {
        match self {
            Registry::File(f) => {
                assert(self.table() == f.table());
                f.query(mod_id)
            },
        }
    }
}

/// The first release of version `v` in the entry.
pub open spec fn release_of(m: ModEntry, v: SemVer, k: int) -> bool {
    &&& 0 <= k < m.releases@.len()
    &&& m.releases@[k].version == v
    &&& forall|j: int| 0 <= j < k ==> (#[trigger] m.releases@[j]).version != v
}

/// The index of the first release of version `v`.
pub fn find_version(m: &ModEntry, v: SemVer) -> (r: Option<usize>)
    ensures
        match r {
            Some(k) => release_of(*m, v, k as int),
            None => forall|k: int| 0 <= k < m.releases@.len() ==> (#[trigger] m.releases@[k]).version != v,
        },
{
    let mut k: usize = 0;
    while k < m.releases.len()
        invariant
            k <= m.releases@.len(),
            forall|j: int| 0 <= j < k ==> (#[trigger] m.releases@[j]).version != v,
        decreases m.releases.len() - k,
    {
        if m.releases[k].version == v {
            return Some(k);
        }
        k = k + 1;
    }
    None
}

impl Registry {
    /// Every known version of the mod, in ascending order.
    pub fn all_versions(&self, mod_id: &str) -> (r: Option<Vec<SemVer>>)
        ensures
            match r {
                Some(vs) => exists|e: int|
                    first_entry(self.entries(), mod_id@, e) && vs@.len() == self.entries()[e].releases@.len()
                        && forall|i: int|
                        0 <= i < vs@.len() ==> vs@[i] == (#[trigger] self.entries()[e].releases@[i]).version,
                None => !known(self.entries(), mod_id@),
            },
            r matches Some(vs) ==> forall|i: int, j: int|
                0 <= i < j < vs@.len() ==> ver_lt(#[trigger] vs@[i], #[trigger] vs@[j]),
    {
        match self {
            Registry::File(f) => {
                assert(self.entries() == f.entries());
                f.all_versions(mod_id)
            },
        }
    }

    /// The metadata of one version of the mod.
    pub fn module(&self, mod_id: &str, version: SemVer) -> (r: Result<&Module, ResolveError>)
        ensures
            match r {
                Ok(m) => exists|e: int, k: int|
                    first_entry(self.entries(), mod_id@, e) && release_of(self.entries()[e], version, k)
                        && *m == self.entries()[e].releases@[k].module,
                Err(ResolveError::UnknownMod(s)) => s@ == mod_id@ && !known(self.entries(), mod_id@),
                Err(ResolveError::UnknownVersion(s, v)) => s@ == mod_id@ && v == version && exists|e: int|
                    first_entry(self.entries(), mod_id@, e) && forall|k: int|
                        0 <= k < self.entries()[e].releases@.len() ==> (#[trigger] self.entries()[e].releases@[k]).version != version,
                Err(_) => false,
            },
    {
        match self.find_entry(mod_id) {
            None => Err(ResolveError::UnknownMod(String::from_str(mod_id))),
            Some(e) => {
                let m = self.entry(e);
                match find_version(m, version) {
                    Some(k) => Ok(&m.releases[k].module),
                    None => Err(ResolveError::UnknownVersion(String::from_str(mod_id), version)),
                }
            },
        }
    }

    /// The highest version of the mod that lies in the range and that the
    /// context accepts; `None` if there is none.
    pub fn choose_package_version(&self, package: &str, range: ReqVer, ctx: &Context) -> (r: Result<
        Option<SemVer>,
        ResolveError,
    >)
        ensures
            match r {
                Ok(Some(v)) => exists|e: int, k: int|
                    first_entry(self.entries(), package@, e) && newest_candidate(
                        self.entries()[e],
                        k,
                        range,
                        *ctx,
                    ) && self.entries()[e].releases@[k].version == v,
                Ok(None) => exists|e: int|
                    first_entry(self.entries(), package@, e) && forall|k: int|
                        !candidate(self.entries()[e], k, range, *ctx),
                Err(ResolveError::UnknownMod(s)) => s@ == package@ && !known(self.entries(), package@),
                Err(_) => false,
            },
            !known(self.entries(), package@) ==> r is Err,
    {
        match self.find_entry(package) {
            None => Err(ResolveError::UnknownMod(String::from_str(package))),
            Some(e) => {
                let m = self.entry(e);
                match pick_release(m, range, ctx) {
                    Some(k) => Ok(Some(m.releases[k].version)),
                    None => Ok(None),
                }
            },
        }
    }

    /// The dependencies that the given version of the mod declares.
    pub fn get_dependencies(&self, package: &str, version: SemVer) -> (r: Result<&Vec<Dep>, ResolveError>)
        ensures
            match r {
                Ok(d) => exists|e: int, k: int|
                    first_entry(self.entries(), package@, e) && release_of(self.entries()[e], version, k)
                        && *d == self.entries()[e].releases@[k].module.dep,
                Err(ResolveError::UnknownMod(s)) => s@ == package@ && !known(self.entries(), package@),
                Err(ResolveError::UnknownVersion(s, v)) => s@ == package@ && v == version && exists|e: int|
                    first_entry(self.entries(), package@, e) && forall|k: int|
                        0 <= k < self.entries()[e].releases@.len() ==> (#[trigger] self.entries()[e].releases@[k]).version != version,
                Err(_) => false,
            },
    {
        match self.find_entry(package) {
            None => Err(ResolveError::UnknownMod(String::from_str(package))),
            Some(e) => {
                let m = self.entry(e);
                if let Some(k) = find_version(m, version) {
                    return Ok(&m.releases[k].module.dep);
                }
                Err(ResolveError::UnknownVersion(String::from_str(package), version))
            },
        }
    }
}

} // verus!
