use vstd::prelude::*;

use crate::registry::{find_version, first_entry, known, release_of, Context, ModAPI, ModEntry, Module, Registry};
use crate::resolve::{
    consistent, newest_allowed, outcome, pairs, placed, resolution, resolve, ResolveError, Stop,
};
use crate::version::{ver_text, SemVer};

verus! {

/// The path under which the artifact of one version of a mod is stored:
/// `<base>/mod/<id>/<version>`.
pub fn mod_storage(base: &str, mod_id: &str, version: &SemVer) -> (r: String)
    ensures
        r@ == base@ + "/mod/"@ + mod_id@ + "/"@ + ver_text(*version),
{
    let mut p = String::from_str(base);
    p.append("/mod/");
    p.append(mod_id);
    p.append("/");
    let v = version.to_text();
    p.append(v.as_str());
    p
}

/// The record of one managed installation.
#[derive(Debug)]
pub struct MCInst {
    pub version: SemVer,
    pub api: Vec<(ModAPI, SemVer)>,
    pub modlist: Vec<(String, SemVer)>,
    pub comment: Option<String>,
}

impl MCInst {
    /// The installation lists the mod `id`.
    pub open spec fn lists(self, id: Seq<char>) -> bool {
        exists|i: int| 0 <= i < self.modlist@.len() && (#[trigger] self.modlist@[i]).0@ == id
    }

    pub fn has_mod(&self, mod_id: &str) -> (r: bool)
        ensures
            r == self.lists(mod_id@),
    {
        let mut i: usize = 0;
        while i < self.modlist.len()
            invariant
                i <= self.modlist@.len(),
                forall|j: int| 0 <= j < i ==> (#[trigger] self.modlist@[j]).0@ != mod_id@,
            decreases self.modlist.len() - i,
        {
            if crate::registry::str_eq(self.modlist[i].0.as_str(), mod_id) {
                return true;
            }
            i = i + 1;
        }
        false
    }

    /// Records that `version` of the mod `mod_id` is installed: the entry of
    /// the mod is replaced if it has one, else one is added at the end.
    pub fn record(&mut self, mod_id: String, version: SemVer)
        ensures
            final(self).version == old(self).version,
            final(self).api == old(self).api,
            final(self).comment == old(self).comment,
            exists|i: int|
                0 <= i < final(self).modlist@.len() && (#[trigger] final(self).modlist@[i]).0@ == mod_id@
                    && final(self).modlist@[i].1 == version,
            forall|i: int|
                0 <= i < final(self).modlist@.len() && (#[trigger] final(self).modlist@[i]).0@ == mod_id@
                    ==> final(self).modlist@[i].1 == version,
            forall|x: Seq<char>| x != mod_id@ ==> (final(self).lists(x) <==> old(self).lists(x)),
            forall|i: int|
                0 <= i < old(self).modlist@.len() && (#[trigger] old(self).modlist@[i]).0@ != mod_id@
                    ==> final(self).modlist@[i] == old(self).modlist@[i],
    {
        let mut list: Vec<(String, SemVer)> = Vec::new();
        let mut found = false;
        let n = self.modlist.len();
        let mut i: usize = 0;
        while i < n
            invariant
                n == self.modlist@.len(),
                i <= n,
                *self == *old(self),
                list@.len() == i,
                forall|j: int|
                    0 <= j < i && (#[trigger] self.modlist@[j]).0@ != mod_id@ ==> list@[j]
                        == self.modlist@[j],
                forall|j: int|
                    0 <= j < i && (#[trigger] self.modlist@[j]).0@ == mod_id@ ==> list@[j].0@
                        == mod_id@ && list@[j].1 == version,
                found <==> exists|j: int| 0 <= j < i && (#[trigger] self.modlist@[j]).0@ == mod_id@,
            decreases n - i,
        {
            let (id, v) = (self.modlist[i].0.clone(), self.modlist[i].1);
            if id == mod_id {
                list.push((id, version));
                found = true;
            } else {
                list.push((id, v));
            }
            i = i + 1;
        }
        if !found {
            list.push((mod_id, version));
        }
        let ghost before = self.modlist@;
        self.modlist = list;
        proof {
            if found {
                let j = choose|j: int| 0 <= j < n && (#[trigger] before[j]).0@ == mod_id@;
                assert(self.modlist@[j].0@ == mod_id@);
            } else {
                assert(self.modlist@[n as int].0@ == mod_id@);
            }
            assert forall|i: int|
                0 <= i < self.modlist@.len() && (#[trigger] self.modlist@[i]).0@ == mod_id@ implies self.modlist@[i].1
                    == version by {
                if i < n {
                    assert(before[i].0@ == mod_id@);
                }
            }
            assert forall|x: Seq<char>| x != mod_id@ implies (self.lists(x) <==> old(self).lists(x)) by {
                if self.lists(x) {
                    let j = choose|j: int| 0 <= j < self.modlist@.len() && (#[trigger] self.modlist@[j]).0@ == x;
                    assert(before[j].0@ == x);
                }
                if old(self).lists(x) {
                    let j = choose|j: int| 0 <= j < before.len() && (#[trigger] before[j]).0@ == x;
                    assert(self.modlist@[j].0@ == x);
                }
            }
        }
    }

    /// The context that a resolution for this installation runs against.
    pub fn context(&self) -> (r: Context)
        ensures
            r.platform == self.version,
            r.loaders@ == self.api@,
    {
        let mut loaders: Vec<(ModAPI, SemVer)> = Vec::new();
        let mut i: usize = 0;
        while i < self.api.len()
            invariant
                i <= self.api@.len(),
                loaders@ =~= self.api@.subrange(0, i as int),
            decreases self.api.len() - i,
        {
            loaders.push(self.api[i]);
            i = i + 1;
        }
        Context { platform: self.version, loaders }
    }
}

/// Why an installation could not go on.
#[derive(Debug)]
pub enum InstallError {
    /// No assignment of versions came out.
    Resolve(ResolveError),
    /// The chosen version of the mod lists no place to fetch it from.
    EmptyDistribution(String),
    /// The artifact's checksum is not the one the registry declares.
    Integrity(String, String),
}

/// One artifact to make present: the mod, its version, the places it can be
/// fetched from, and the checksum it must have.
#[derive(Debug)]
pub struct Artifact {
    pub id: String,
    pub version: SemVer,
    pub urls: Vec<String>,
    pub md5: String,
    pub spdx: String,
}

/// What an installation has to do.
#[derive(Debug)]
pub enum Plan {
    /// The mod is installed already: nothing to fetch, nothing to record.
    Installed,
    /// Fetch and link each artifact, then record the root mod at its version.
    Fetch(SemVer, Vec<Artifact>),
}

/// The artifact is release `k` of the first entry of its mod, which the
/// context accepts, with that release's places and checksum.
pub open spec fn artifact_of(es: Seq<ModEntry>, ctx: Context, a: Artifact) -> bool {
    exists|e: int, k: int|
        placed(es, ctx, a.id@, a.version, e, k) && a.urls@ == (#[trigger] es[e].releases@[k]).module.url@
            && a.md5@ == es[e].releases@[k].module.md5@ && a.spdx@ == es[e].releases@[k].module.spdx@
}

/// What installing the assignment `sol` comes to: a plan that fetches one
/// artifact per mod of it, the root's version to record, or the first mod
/// whose chosen release lists no place to fetch it from. The assignment holds
/// every dependency of its mods, each at the newest version allowed.
pub open spec fn planned(
    es: Seq<ModEntry>,
    ctx: Context,
    sol: Seq<(String, SemVer)>,
    r: Result<Plan, InstallError>,
) -> bool {
    &&& sol.len() >= 1
    &&& consistent(es, ctx, sol)
    &&& forall|t: int| 0 <= t < sol.len() ==> #[trigger] newest_allowed(es, ctx, sol, t)
    &&& (forall|t: int, e: int, k: int|
        #![trigger sol[t], es[e].releases@[k]]
        0 <= t < sol.len() && placed(es, ctx, sol[t].0@, sol[t].1, e, k) ==> es[e].releases@[k].module.url@.len()
            > 0) ==> r is Ok
    &&& match r {
        Ok(Plan::Fetch(v, arts)) => {
            &&& arts@.len() == sol.len()
            &&& v == sol[0].1
            &&& forall|t: int|
                0 <= t < arts@.len() ==> (#[trigger] arts@[t]).id@ == sol[t].0@ && arts@[t].version
                    == sol[t].1 && arts@[t].urls@.len() > 0 && artifact_of(es, ctx, arts@[t])
        },
        Err(InstallError::EmptyDistribution(id)) => exists|t: int, e: int, k: int|
            #![trigger sol[t], es[e].releases@[k]]
            0 <= t < sol.len() && sol[t].0@ == id@ && placed(es, ctx, id@, sol[t].1, e, k)
                && es[e].releases@[k].module.url@.len() == 0,
        _ => false,
    }
}

/// The index of the first release of version `v` that the context accepts.
fn find_release(m: &ModEntry, v: SemVer, ctx: &Context) -> (r: Option<usize>)
    ensures
        match r {
            Some(k) => k < m.releases@.len() && m.releases@[k as int].version == v
                && m.releases@[k as int].module.compatible(*ctx),
            None => forall|k: int|
                0 <= k < m.releases@.len() ==> !((#[trigger] m.releases@[k]).version == v
                    && m.releases@[k].module.compatible(*ctx)),
        },
{
    let mut k: usize = 0;
    while k < m.releases.len()
        invariant
            k <= m.releases@.len(),
            forall|j: int|
                0 <= j < k ==> !((#[trigger] m.releases@[j]).version == v
                    && m.releases@[j].module.compatible(*ctx)),
        decreases m.releases.len() - k,
    {
        if m.releases[k].version == v && m.releases[k].module.check_inst(ctx) {
            return Some(k);
        }
        k = k + 1;
    }
    None
}

fn copy_strings(v: &Vec<String>) -> (r: Vec<String>)
    ensures
        r@ == v@,
{
    let mut out: Vec<String> = Vec::new();
    let mut i: usize = 0;
    while i < v.len()
        invariant
            i <= v@.len(),
            out@ =~= v@.subrange(0, i as int),
        decreases v.len() - i,
    {
        out.push(v[i].clone());
        i = i + 1;
    }
    out
}

/// Decides what installing the mod `root_id` into the installation takes.
///
/// A mod that the installation lists already is left as it is. Otherwise the
/// mod is resolved against the context, and each
/// mod of the assignment, the root first, becomes an artifact to fetch.
pub fn install(root_id: &str, reg: &Registry, inst: &MCInst, ctx: &Context) -> (r: Result<
    Plan,
    InstallError,
>)
    ensures
        inst.lists(root_id@) <==> r matches Ok(Plan::Installed),
        !inst.lists(root_id@) && resolution(reg.entries(), *ctx, root_id@) is Err ==> (r matches Err(
            InstallError::Resolve(e),
        ) && outcome(Err::<Vec<(String, SemVer)>, ResolveError>(e)) == resolution(reg.entries(), *ctx, root_id@)),
        !inst.lists(root_id@) && resolution(reg.entries(), *ctx, root_id@) is Ok ==> exists|
            sol: Seq<(String, SemVer)>,
        |
            resolution(reg.entries(), *ctx, root_id@) == Ok::<Seq<(Seq<char>, SemVer)>, Stop>(pairs(sol))
                && planned(
                reg.entries(),
                *ctx,
                sol,
                r,
            ),
        match r {
            Err(InstallError::Integrity(_, _)) => false,
            Err(InstallError::Resolve(_)) => !inst.lists(root_id@) && resolution(
                reg.entries(),
                *ctx,
                root_id@,
            ) is Err,
            _ => true,
        },
{
    if inst.has_mod(root_id) {
        return Ok(Plan::Installed);
    }
    let sol = match resolve(root_id, reg, ctx) {
        Ok(a) => a,
        Err(e) => {
            return Err(InstallError::Resolve(e));
        },
    };
    let ghost es = reg.entries();
    let mut arts: Vec<Artifact> = Vec::new();
    let mut i: usize = 0;
    while i < sol.len()
        invariant
            es == reg.entries(),
            !inst.lists(root_id@),
            i <= sol@.len(),
            sol@.len() >= 1,
            sol@[0].0@ == root_id@,
            consistent(es, *ctx, sol@),
            arts@.len() == i,
            forall|j: int| 0 <= j < i ==> (#[trigger] arts@[j]).id@ == sol@[j].0@ && arts@[j].version == sol@[j].1,
            forall|j: int| 0 <= j < i ==> (#[trigger] arts@[j]).urls@.len() > 0,
            forall|j: int| 0 <= j < i ==> artifact_of(es, *ctx, #[trigger] arts@[j]),
            forall|t: int| 0 <= t < sol@.len() ==> #[trigger] newest_allowed(es, *ctx, sol@, t),
            resolution(es, *ctx, root_id@) == Ok::<Seq<(Seq<char>, SemVer)>, Stop>(pairs(sol@)),
        decreases sol.len() - i,
    {
        let id = &sol[i].0;
        let v = sol[i].1;
        proof {
            assert(crate::resolve::chosen_ok(es, *ctx, sol@, i as int));
        }
        let e = match reg.find_entry(id.as_str()) {
            Some(e) => e,
            None => {
                proof {
                    let (pe, pk) = choose|pe: int, pk: int| placed(es, *ctx, sol@[i as int].0@, sol@[i as int].1, pe, pk)
                        && crate::resolve::deps_met(crate::resolve::module_at(es, pe, pk), sol@);
                    assert(es[pe].id@ == id@);
                }
                return Err(InstallError::Resolve(ResolveError::UnknownMod(id.clone())));
            },
        };
        let entry = reg.entry(e);
        let k = match find_release(entry, v, ctx) {
            Some(k) => k,
            None => {
                proof {
                    let (pe, pk) = choose|pe: int, pk: int| placed(es, *ctx, sol@[i as int].0@, sol@[i as int].1, pe, pk)
                        && crate::resolve::deps_met(crate::resolve::module_at(es, pe, pk), sol@);
                    assert(pe == e);
                    assert(entry.releases@[pk].version == v);
                }
                return Err(InstallError::Resolve(ResolveError::UnknownVersion(id.clone(), v)));
            },
        };
        let m: &Module = &entry.releases[k].module;
        if m.url.len() == 0 {
            proof {
                assert(placed(es, *ctx, id@, es[e as int].releases@[k as int].version, e as int, k as int));
                assert(placed(es, *ctx, sol@[i as int].0@, sol@[i as int].1, e as int, k as int));
                assert(!(es[e as int].releases@[k as int].module.url@.len() > 0));
            }
            let r = Err(InstallError::EmptyDistribution(id.clone()));
            proof {
                assert(planned(es, *ctx, sol@, r));
            }
            return r;
        }
        let art = Artifact {
            id: id.clone(),
            version: v,
            urls: copy_strings(&m.url),
            md5: m.md5.clone(),
            spdx: m.spdx.clone(),
        };
        proof {
            assert(placed(es, *ctx, art.id@, art.version, e as int, k as int));
            assert(art.urls@ == es[e as int].releases@[k as int].module.url@);
        }
        arts.push(art);
        i = i + 1;
    }
    let r = Ok(Plan::Fetch(sol[0].1, arts));
    proof {
        assert(planned(es, *ctx, sol@, r));
    }
    r
}

/// The artifact of one version of a mod, to fetch it to local storage.
pub fn add(reg: &Registry, mod_id: &str, version: SemVer) -> (r: Result<Artifact, InstallError>)
    ensures
        match r {
            Ok(a) => {
                &&& a.id@ == mod_id@
                &&& a.version == version
                &&& a.urls@.len() > 0
                &&& exists|e: int, k: int|
                    first_entry(reg.entries(), mod_id@, e) && release_of(reg.entries()[e], version, k)
                        && a.urls@ == (#[trigger] reg.entries()[e].releases@[k]).module.url@
                        && a.md5@ == reg.entries()[e].releases@[k].module.md5@
                        && a.spdx@ == reg.entries()[e].releases@[k].module.spdx@
            },
            Err(InstallError::Resolve(ResolveError::UnknownMod(s))) => s@ == mod_id@ && !known(
                reg.entries(),
                mod_id@,
            ),
            Err(InstallError::Resolve(ResolveError::UnknownVersion(s, v))) => s@ == mod_id@ && v
                == version && exists|e: int|
                first_entry(reg.entries(), mod_id@, e) && forall|k: int|
                    0 <= k < reg.entries()[e].releases@.len() ==> (#[trigger] reg.entries()[e].releases@[k]).version
                        != version,
            Err(InstallError::EmptyDistribution(s)) => s@ == mod_id@ && exists|e: int, k: int|
                first_entry(reg.entries(), mod_id@, e) && release_of(reg.entries()[e], version, k)
                    && (#[trigger] reg.entries()[e].releases@[k]).module.url@.len() == 0,
            Err(_) => false,
        },
{
    let e = match reg.find_entry(mod_id) {
        Some(e) => e,
        None => {
            return Err(InstallError::Resolve(ResolveError::UnknownMod(String::from_str(mod_id))));
        },
    };
    let entry = reg.entry(e);
    let k = match find_version(entry, version) {
        Some(k) => k,
        None => {
            return Err(
                InstallError::Resolve(ResolveError::UnknownVersion(String::from_str(mod_id), version)),
            );
        },
    };
    let m = &entry.releases[k].module;
    if m.url.len() == 0 {
        return Err(InstallError::EmptyDistribution(String::from_str(mod_id)));
    }
    Ok(Artifact {
        id: String::from_str(mod_id),
        version,
        urls: copy_strings(&m.url),
        md5: m.md5.clone(),
        spdx: m.spdx.clone(),
    })
}

/// The MD5 digest of the bytes, in lowercase hexadecimal.
pub uninterp spec fn md5_of(b: Seq<u8>) -> Seq<char>;

/// Relies on chksum_md5::hash and Digest::to_hex_lowercase: the MD5 digest
/// of the bytes, written in lowercase hexadecimal.
#[verifier::external_body]
fn md5_hex(b: &Vec<u8>) -> (r: String)
    ensures
        r@ == md5_of(b@),
{
    chksum_md5::hash(b).to_hex_lowercase()
}

/// Checks the bytes of a fetched artifact against the declared checksum.
pub fn check_artifact(bytes: &Vec<u8>, md5sum: &str) -> (r: Result<(), InstallError>)
    ensures
        r is Ok <==> same_digest(md5_of(bytes@), md5sum@),
        match r {
            Err(InstallError::Integrity(got, want)) => got@ == md5_of(bytes@) && want@ == md5sum@,
            Err(_) => false,
            Ok(_) => true,
        },
{
    let sum = md5_hex(bytes);
    check_md5(sum.as_str(), md5sum)
}

/// Two characters are equal once ASCII upper case is folded to lower case.
pub open spec fn fold_eq(a: char, b: char) -> bool {
    ||| a == b
    ||| ('A' <= a <= 'Z' && a as u32 + 32 == b as u32)
    ||| ('A' <= b <= 'Z' && b as u32 + 32 == a as u32)
}

/// Two hexadecimal digests are equal, whatever the case of their letters.
pub open spec fn same_digest(a: Seq<char>, b: Seq<char>) -> bool {
    a.len() == b.len() && forall|i: int| 0 <= i < a.len() ==> fold_eq(#[trigger] a[i], b[i])
}

/// Checks a computed digest against the declared one, ignoring case.
pub fn check_md5(sum: &str, md5sum: &str) -> (r: Result<(), InstallError>)
    ensures
        r is Ok <==> same_digest(sum@, md5sum@),
        match r {
            Err(InstallError::Integrity(got, want)) => got@ == sum@ && want@ == md5sum@,
            Err(_) => false,
            Ok(_) => true,
        },
{
    let n = sum.unicode_len();
    let mut ok = n == md5sum.unicode_len();
    if ok {
        let mut i: usize = 0;
        while i < n
            invariant
                n == sum@.len(),
                n == md5sum@.len(),
                i <= n,
                ok == forall|j: int| 0 <= j < i ==> fold_eq(#[trigger] sum@[j], md5sum@[j]),
            decreases n - i,
        {
            let a = sum.get_char(i);
            let b = md5sum.get_char(i);
            let same = a == b || ('A' <= a && a <= 'Z' && a as u32 + 32 == b as u32) || ('A' <= b
                && b <= 'Z' && b as u32 + 32 == a as u32);
            if !same {
                assert(!fold_eq(sum@[i as int], md5sum@[i as int]));
                return Err(InstallError::Integrity(String::from_str(sum), String::from_str(md5sum)));
            }
            i = i + 1;
        }
    }
    if ok {
        Ok(())
    } else {
        Err(InstallError::Integrity(String::from_str(sum), String::from_str(md5sum)))
    }
}

} // verus!
