use vstd::prelude::*;
use vstd::set_lib::{lemma_int_range, lemma_len_subset, set_int_range};

use crate::registry::{
    candidate, first_entry, first_newest, known, newest_candidate, pick_release, Context, ModEntry, Module,
    Registry,
};
use crate::version::{ReqVer, SemVer, ver_le};

verus! {

/// Why no assignment of versions came out.
#[derive(Debug)]
pub enum ResolveError {
    /// The registry has no mod of this identifier.
    UnknownMod(String),
    /// The registry has the mod but not this version of it.
    UnknownVersion(String, SemVer),
    /// No version of the mod fits the range and the context, or the range
    /// became empty, or it no longer holds the version already chosen.
    Unsatisfiable(String, ReqVer),
}

/// Release `k` of entry `e` is version `v` of the mod `id`, and it can be
/// installed under the context.
pub open spec fn placed(es: Seq<ModEntry>, ctx: Context, id: Seq<char>, v: SemVer, e: int, k: int) -> bool {
    &&& first_entry(es, id, e)
    &&& 0 <= k < es[e].releases@.len()
    &&& es[e].releases@[k].version == v
    &&& es[e].releases@[k].module.compatible(ctx)
}

pub open spec fn module_at(es: Seq<ModEntry>, e: int, k: int) -> Module {
    es[e].releases@[k].module
}

/// Every dependency of the module is assigned a version in its range.
pub open spec fn deps_met(m: Module, a: Seq<(String, SemVer)>) -> bool {
    forall|d: int|
        #![trigger m.dep@[d]]
        0 <= d < m.dep@.len() ==> exists|j: int|
            0 <= j < a.len() && (#[trigger] a[j]).0@ == m.dep@[d].id@ && m.dep@[d].req.has(a[j].1)
}

/// The module names the mod `id` among its dependencies.
pub open spec fn requires_id(m: Module, id: Seq<char>) -> bool {
    exists|d: int| 0 <= d < m.dep@.len() && (#[trigger] m.dep@[d]).id@ == id
}

/// Some mod of `ids` is named as dependency `c` of `m`, and its range in
/// `ranges` lies within the range that `m` requires of it.
pub open spec fn recorded(ids: Seq<String>, ranges: Seq<ReqVer>, m: Module, c: int) -> bool {
    exists|t: int|
        0 <= t < ids.len() && (#[trigger] ids[t])@ == m.dep@[c].id@ && ranges[t].within_range(
            m.dep@[c].req,
        )
}

/// Growing the list of mods and narrowing their ranges keeps what was recorded.
proof fn lemma_recorded_kept(
    ids: Seq<String>,
    ranges: Seq<ReqVer>,
    ids2: Seq<String>,
    ranges2: Seq<ReqVer>,
)
    requires
        ids.len() == ranges.len(),
        ids.len() <= ids2.len(),
        ranges.len() <= ranges2.len(),
        forall|t: int| 0 <= t < ids.len() ==> ids2[t] == ids[t],
        forall|t: int| 0 <= t < ranges.len() ==> (#[trigger] ranges2[t]).within_range(ranges[t]),
    ensures
        forall|m: Module, c: int| recorded(ids, ranges, m, c) ==> #[trigger] recorded(ids2, ranges2, m, c),
{
    assert forall|m: Module, c: int| recorded(ids, ranges, m, c) implies #[trigger] recorded(
        ids2,
        ranges2,
        m,
        c,
    ) by {
        let t = choose|t: int|
            0 <= t < ids.len() && (#[trigger] ids[t])@ == m.dep@[c].id@ && ranges[t].within_range(
                m.dep@[c].req,
            );
        assert(ids2[t] == ids[t]);
        assert(ranges2[t].within_range(ranges[t]));
        assert forall|v: SemVer| #[trigger] ranges2[t].has(v) implies m.dep@[c].req.has(v) by {
            assert(ranges[t].has(v));
        }
    }
}

/// No mod is assigned twice.
pub open spec fn distinct(a: Seq<(String, SemVer)>) -> bool {
    forall|i: int, j: int| 0 <= i < j < a.len() ==> (#[trigger] a[i]).0@ != (#[trigger] a[j]).0@
}

/// Each assigned version is a release in the registry that the context
/// accepts, and all its dependencies are assigned within their ranges.
pub open spec fn consistent(es: Seq<ModEntry>, ctx: Context, a: Seq<(String, SemVer)>) -> bool {
    forall|i: int| 0 <= i < a.len() ==> #[trigger] chosen_ok(es, ctx, a, i)
}

/// Entry `i` of the assignment is a release that the context accepts, and all
/// its dependencies are assigned within their ranges.
pub open spec fn chosen_ok(es: Seq<ModEntry>, ctx: Context, a: Seq<(String, SemVer)>, i: int) -> bool {
    exists|e: int, k: int| placed(es, ctx, a[i].0@, a[i].1, e, k) && deps_met(module_at(es, e, k), a)
}

/// Each assigned mod after the first is a dependency of one assigned before it.
pub open spec fn reached(es: Seq<ModEntry>, ctx: Context, a: Seq<(String, SemVer)>) -> bool {
    forall|j: int| 0 < j < a.len() ==> #[trigger] named_before(es, ctx, a, j)
}

/// Entry `j` of the assignment is a dependency of an entry before it.
pub open spec fn named_before(es: Seq<ModEntry>, ctx: Context, a: Seq<(String, SemVer)>, j: int) -> bool {
    exists|i: int, e: int, k: int|
        0 <= i < j && placed(es, ctx, a[i].0@, a[i].1, e, k) && requires_id(module_at(es, e, k), a[j].0@)
}

/// The registry has the mod `id`, and no release of it lies in the range and
/// is accepted by the context.
pub open spec fn no_candidate(es: Seq<ModEntry>, ctx: Context, id: Seq<char>, range: ReqVer) -> bool {
    &&& known(es, id)
    &&& forall|e: int| first_entry(es, id, e) ==> forall|k: int| !candidate(es[e], k, range, ctx)
}

/// The registry has the mod `root`, and a release of it that the context accepts.
pub open spec fn root_ok(es: Seq<ModEntry>, root: Seq<char>, ctx: Context) -> bool {
    &&& known(es, root)
    &&& forall|e: int|
        first_entry(es, root, e) ==> exists|k: int| candidate(es[e], k, ReqVer::full(), ctx)
}

/// The registry has the mod `root`; it has a release that the context accepts,
/// and every such release of highest version has no dependencies.
pub open spec fn root_leaf(es: Seq<ModEntry>, root: Seq<char>, ctx: Context) -> bool {
    exists|e: int|
        first_entry(es, root, e) && (exists|k: int|
            newest_candidate(es[e], k, ReqVer::full(), ctx)) && (forall|k: int|
            newest_candidate(es[e], k, ReqVer::full(), ctx) ==> module_at(es, e, k).dep@.len()
                == 0)
}

/// `w` meets every requirement on the mod `id` that a release chosen for an
/// entry of `pre` declares.
pub open spec fn allowed_by(
    es: Seq<ModEntry>,
    ctx: Context,
    pre: Seq<(String, SemVer)>,
    id: Seq<char>,
    w: SemVer,
) -> bool {
    forall|j: int, e: int, k: int, c: int|
        #![trigger placed(es, ctx, pre[j].0@, pre[j].1, e, k), module_at(es, e, k).dep@[c]]
        0 <= j < pre.len() && placed(es, ctx, pre[j].0@, pre[j].1, e, k) && 0 <= c < module_at(
            es,
            e,
            k,
        ).dep@.len() && module_at(es, e, k).dep@[c].id@ == id ==> module_at(es, e, k).dep@[c].req.has(w)
}

/// Entry `i` has the highest version among the releases of its mod that the
/// context accepts and that meet the requirements of the entries before it.
pub open spec fn newest_allowed(es: Seq<ModEntry>, ctx: Context, a: Seq<(String, SemVer)>, i: int) -> bool {
    forall|e: int, k: int|
        first_entry(es, a[i].0@, e) && 0 <= k < es[e].releases@.len() && (#[trigger] es[e].releases@[k]).module.compatible(ctx)
            && allowed_by(es, ctx, a.subrange(0, i), a[i].0@, es[e].releases@[k].version) ==> ver_le(
            es[e].releases@[k].version,
            a[i].1,
        )
}

/// `w` meets the requirements on the mod `id` of the releases picked for the
/// first `jn` entries, and of the first `cn` dependencies of the next one.
pub open spec fn picks_allow(
    es: Seq<ModEntry>,
    picks: Seq<(int, int)>,
    jn: int,
    cn: int,
    id: Seq<char>,
    w: SemVer,
) -> bool {
    &&& forall|j: int, c: int|
        #![trigger module_at(es, picks[j].0, picks[j].1).dep@[c]]
        0 <= j < jn && 0 <= c < module_at(es, picks[j].0, picks[j].1).dep@.len() && module_at(
            es,
            picks[j].0,
            picks[j].1,
        ).dep@[c].id@ == id ==> module_at(es, picks[j].0, picks[j].1).dep@[c].req.has(w)
    &&& forall|c: int|
        #![trigger module_at(es, picks[jn].0, picks[jn].1).dep@[c]]
        0 <= c < cn && module_at(es, picks[jn].0, picks[jn].1).dep@[c].id@ == id ==> module_at(
            es,
            picks[jn].0,
            picks[jn].1,
        ).dep@[c].req.has(w)
}

/// The version picked at a decision is the newest that the requirements of
/// the entries before it allow.
proof fn lemma_decided_newest(
    es: Seq<ModEntry>,
    ctx: Context,
    picks: Seq<(int, int)>,
    out: Seq<(String, SemVer)>,
    i: int,
    range: ReqVer,
    e: int,
    k: int,
)
    requires
        0 <= i,
        picks.len() >= i,
        out.len() == i + 1,
        forall|j: int|
            0 <= j < i ==> placed(es, ctx, out[j].0@, (#[trigger] out[j]).1, picks[j].0, picks[j].1),
        forall|w: SemVer| picks_allow(es, picks, i, 0, out[i].0@, w) ==> #[trigger] range.has(w),
        first_entry(es, out[i].0@, e),
        newest_candidate(es[e], k, range, ctx),
        es[e].releases@[k].version == out[i].1,
    ensures
        newest_allowed(es, ctx, out, i),
{
    let pre = out.subrange(0, i);
    assert forall|e2: int, k2: int|
        first_entry(es, out[i].0@, e2) && 0 <= k2 < es[e2].releases@.len() && (#[trigger] es[e2].releases@[k2]).module.compatible(ctx)
            && allowed_by(es, ctx, pre, out[i].0@, es[e2].releases@[k2].version) implies ver_le(
        es[e2].releases@[k2].version,
        out[i].1,
    ) by {
        assert(e2 == e);
        let w = es[e2].releases@[k2].version;
        assert forall|j: int, c: int|
            #![trigger module_at(es, picks[j].0, picks[j].1).dep@[c]]
            0 <= j < i && 0 <= c < module_at(es, picks[j].0, picks[j].1).dep@.len() && module_at(
                es,
                picks[j].0,
                picks[j].1,
            ).dep@[c].id@ == out[i].0@ implies module_at(es, picks[j].0, picks[j].1).dep@[c].req.has(
            w,
        ) by {
            assert(placed(es, ctx, out[j].0@, out[j].1, picks[j].0, picks[j].1));
            assert(pre[j] == out[j]);
            assert(placed(es, ctx, pre[j].0@, pre[j].1, picks[j].0, picks[j].1));
        }
        assert(picks_allow(es, picks, i, 0, out[i].0@, w));
        assert(range.has(w));
        assert(candidate(es[e], k2, range, ctx));
    }
}

/// Why the single pass stops without an assignment: the mod, and the range
/// that could not be met (none for a mod that the registry lacks).
pub type Stop = (Seq<char>, Option<ReqVer>);

pub open spec fn names(s: Seq<String>) -> Seq<Seq<char>> {
    s.map_values(|x: String| x@)
}

pub open spec fn pairs(s: Seq<(String, SemVer)>) -> Seq<(Seq<char>, SemVer)> {
    s.map_values(|x: (String, SemVer)| (x.0@, x.1))
}

/// The result of a resolution, as the mods and versions it holds.
pub open spec fn outcome(r: Result<Vec<(String, SemVer)>, ResolveError>) -> Result<
    Seq<(Seq<char>, SemVer)>,
    Stop,
> {
    match r {
        Ok(a) => Ok(pairs(a@)),
        Err(ResolveError::UnknownMod(s)) => Err((s@, None)),
        Err(ResolveError::UnknownVersion(s, _)) => Err((s@, None)),
        Err(ResolveError::Unsatisfiable(s, rr)) => Err((s@, Some(rr))),
    }
}

/// The entry of the mod `id`: the first one for it.
pub open spec fn entry_of(es: Seq<ModEntry>, id: Seq<char>) -> int {
    choose|e: int| first_entry(es, id, e)
}

/// Where `id` stands in `ids`, if it is there.
pub open spec fn id_index(ids: Seq<Seq<char>>, id: Seq<char>) -> Option<int> {
    if exists|j: int| 0 <= j < ids.len() && ids[j] == id {
        Some(choose|j: int| 0 <= j < ids.len() && ids[j] == id)
    } else {
        None
    }
}

/// The derive step for the dependencies of `m` from the `d`-th on, after the
/// decision of entry `i`: each dependency's range is intersected into the
/// range of its mod, or the mod joins the list with that range. An empty
/// range, or one that leaves out a version already chosen, stops the pass.
pub open spec fn derive(
    m: Module,
    ids: Seq<Seq<char>>,
    ranges: Seq<ReqVer>,
    out: Seq<(Seq<char>, SemVer)>,
    i: int,
    d: int,
) -> Result<(Seq<Seq<char>>, Seq<ReqVer>), Stop>
    decreases m.dep@.len() - d,
{
    if d < 0 || d >= m.dep@.len() {
        Ok((ids, ranges))
    } else {
        let dep = m.dep@[d];
        match id_index(ids, dep.id@) {
            Some(j) => {
                let nr = ranges[j].meet(dep.req);
                if nr.empty() || (j <= i && !nr.has(out[j].1)) {
                    Err((dep.id@, Some(nr)))
                } else {
                    derive(m, ids, ranges.update(j, nr), out, i, d + 1)
                }
            },
            None => if dep.req.empty() {
                Err((dep.id@, Some(dep.req)))
            } else {
                derive(m, ids.push(dep.id@), ranges.push(dep.req), out, i, d + 1)
            },
        }
    }
}

/// The single pass from entry `i` on: decide the entry with the first
/// release of highest version in its range that the context accepts, derive
/// the ranges of its dependencies, and go on with the next entry.
pub open spec fn run_from(
    es: Seq<ModEntry>,
    ctx: Context,
    ids: Seq<Seq<char>>,
    ranges: Seq<ReqVer>,
    out: Seq<(Seq<char>, SemVer)>,
    i: int,
    fuel: nat,
) -> Result<Seq<(Seq<char>, SemVer)>, Stop>
    decreases fuel, 0nat,
{
    if i < 0 || i >= ids.len() || fuel == 0 {
        Ok(out)
    } else if !known(es, ids[i]) {
        Err((ids[i], None))
    } else {
        let en = es[entry_of(es, ids[i])];
        if !(exists|k: int| candidate(en, k, ranges[i], ctx)) {
            Err((ids[i], Some(ranges[i])))
        } else {
            let k = choose|k: int| first_newest(en, k, ranges[i], ctx);
            let out2 = out.push((ids[i], en.releases@[k].version));
            after_decide(es, ctx, en.releases@[k].module, ids, ranges, out2, i, 0, (fuel - 1) as nat)
        }
    }
}

/// The rest of the pass once entry `i` is decided and the dependencies of
/// its module before the `d`-th are derived.
pub open spec fn after_decide(
    es: Seq<ModEntry>,
    ctx: Context,
    m: Module,
    ids: Seq<Seq<char>>,
    ranges: Seq<ReqVer>,
    out: Seq<(Seq<char>, SemVer)>,
    i: int,
    d: int,
    fuel: nat,
) -> Result<Seq<(Seq<char>, SemVer)>, Stop>
    decreases fuel, 1nat,
{
    match derive(m, ids, ranges, out, i, d) {
        Err(x) => Err(x),
        Ok((ids2, ranges2)) => run_from(es, ctx, ids2, ranges2, out, i + 1, fuel),
    }
}

/// The single pass for the mod `root`: it starts with the root alone, in the
/// unbounded range.
pub open spec fn resolution(es: Seq<ModEntry>, ctx: Context, root: Seq<char>) -> Result<
    Seq<(Seq<char>, SemVer)>,
    Stop,
> {
    run_from(es, ctx, seq![root], seq![ReqVer::full()], Seq::empty(), 0, (es.len() + 1) as nat)
}

/// The position of `id` in `ids`, if it is there.
fn position(ids: &Vec<String>, id: &String) -> (r: Option<usize>)
    ensures
        match r {
            Some(j) => j < ids@.len() && ids@[j as int]@ == id@,
            None => forall|j: int| 0 <= j < ids@.len() ==> (#[trigger] ids@[j])@ != id@,
        },
{
    let mut j: usize = 0;
    while j < ids.len()
        invariant
            j <= ids@.len(),
            forall|t: int| 0 <= t < j ==> (#[trigger] ids@[t])@ != id@,
        decreases ids.len() - j,
    {
        if ids[j] == *id {
            return Some(j);
        }
        j = j + 1;
    }
    None
}

/// Chooses one version for the mod `root` and for every mod that it needs,
/// directly or through others.
///
/// Mods are decided in the order in which they are first named. Each takes the
/// highest version of the registry that lies in the intersection of the ranges
/// that the mods decided before it require, and that the context accepts. A
/// range that becomes empty, or that no longer holds a version already
/// chosen, ends the resolution: no earlier choice is taken back.
#[verifier::rlimit(60)]
pub fn resolve(root: &str, reg: &Registry, ctx: &Context) -> (r: Result<Vec<(String, SemVer)>, ResolveError>)
    ensures
        outcome(r) == resolution(reg.entries(), *ctx, root@),
        match r {
            Ok(a) => {
                &&& a@.len() >= 1
                &&& a@[0].0@ == root@
                &&& distinct(a@)
                &&& consistent(reg.entries(), *ctx, a@)
                &&& reached(reg.entries(), *ctx, a@)
                &&& forall|t: int| 0 <= t < a@.len() ==> #[trigger] newest_allowed(reg.entries(), *ctx, a@, t)
                &&& exists|e: int, k: int|
                    first_entry(reg.entries(), root@, e) && newest_candidate(
                        reg.entries()[e],
                        k,
                        ReqVer::full(),
                        *ctx,
                    ) && reg.entries()[e].releases@[k].version == a@[0].1
            },
            Err(ResolveError::UnknownMod(s)) => !known(reg.entries(), s@),
            Err(ResolveError::Unsatisfiable(s, rr)) => {
                ||| rr.empty()
                ||| no_candidate(reg.entries(), *ctx, s@, rr)
                ||| exists|e: int, k: int|
                    placed(reg.entries(), *ctx, s@, reg.entries()[e].releases@[k].version, e, k)
                        && !rr.has(reg.entries()[e].releases@[k].version)
            },
            Err(ResolveError::UnknownVersion(_, _)) => false,
        },
        !known(reg.entries(), root@) ==> (r matches Err(ResolveError::UnknownMod(s)) && s@
            == root@),
        forall|e: int|
            first_entry(reg.entries(), root@, e) && (forall|k: int|
                !candidate(reg.entries()[e], k, ReqVer::full(), *ctx)) ==> (r matches Err(
                ResolveError::Unsatisfiable(s, rr),
            ) && s@ == root@ && rr == ReqVer::full()),
        root_leaf(reg.entries(), root@, *ctx) ==> (r matches Ok(a) && a@.len() == 1),
{
    let ghost es = reg.entries();
    let n = reg.len();
    let mut ids: Vec<String> = Vec::new();
    ids.push(root.to_owned());
    let mut ranges: Vec<ReqVer> = Vec::new();
    ranges.push(ReqVer::unbounded());
    let mut out: Vec<(String, SemVer)> = Vec::new();
    let ghost mut picks: Seq<(int, int)> = Seq::empty();
    let ghost mut seen: Set<int> = Set::empty();
    let mut i: usize = 0;
    proof {
        assert(names(ids@) =~= seq![root@]);
        assert(ranges@ =~= seq![ReqVer::full()]);
        assert(pairs(out@) =~= Seq::<(Seq<char>, SemVer)>::empty());
    }
    while i < ids.len()
        invariant
            resolution(es, *ctx, root@) == run_from(
                es,
                *ctx,
                names(ids@),
                ranges@,
                pairs(out@),
                i as int,
                (n + 1 - i) as nat,
            ),
            n == es.len(),
            es == reg.entries(),
            ids@.len() == ranges@.len(),
            1 <= ids@.len(),
            ids@[0]@ == root@,
            i <= ids@.len(),
            i <= n,
            forall|s: int, t: int| 0 <= s < t < ids@.len() ==> (#[trigger] ids@[s])@ != (#[trigger] ids@[t])@,
            out@.len() == i,
            picks.len() == i,
            forall|j: int| 0 <= j < i ==> (#[trigger] out@[j]).0@ == ids@[j]@,
            forall|j: int|
                0 <= j < i ==> placed(es, *ctx, ids@[j]@, (#[trigger] out@[j]).1, picks[j].0, picks[j].1),
            forall|j: int| 0 <= j < i ==> ranges@[j].has((#[trigger] out@[j]).1),
            forall|j: int, c: int|
                0 <= j < i && 0 <= c < module_at(es, picks[j].0, picks[j].1).dep@.len()
                    ==> #[trigger] recorded(ids@, ranges@, module_at(es, picks[j].0, picks[j].1), c),
            forall|t: int|
                0 < t < ids@.len() ==> exists|j: int|
                    0 <= j < t && j < i && requires_id(
                        module_at(es, picks[j].0, picks[j].1),
                        (#[trigger] ids@[t])@,
                    ),
            i > 0 ==> newest_candidate(es[picks[0].0], picks[0].1, ReqVer::full(), *ctx),
            i == 0 ==> ids@.len() == 1 && ranges@[0] == ReqVer::full(),
            i > 0 ==> root_ok(es, root@, *ctx),
            forall|t: int| 0 <= t < i ==> #[trigger] newest_allowed(es, *ctx, out@, t),
            forall|t: int, w: SemVer|
                i <= t < ids@.len() && picks_allow(es, picks, i as int, 0, ids@[t]@, w) ==> #[trigger] ranges@[t].has(w),
            i > 0 && root_leaf(es, root@, *ctx) ==> ids@.len() == 1,
            seen.finite(),
            seen.len() == i,
            seen.subset_of(set_int_range(0, n as int)),
            forall|x: int| seen.contains(x) ==> exists|j: int| 0 <= j < i && (#[trigger] picks[j]).0 == x,
        decreases n - i,
    {
        let id: String = ids[i].clone();
        let range = ranges[i];
        let e = match reg.find_entry(id.as_str()) {
            None => {
                proof {
                    if i == 0 && root_leaf(es, root@, *ctx) {
                        let e2 = choose|e2: int| first_entry(es, root@, e2) && (exists|k: int|
                            newest_candidate(es[e2], k, ReqVer::full(), *ctx)) && (forall|k: int|
                            newest_candidate(es[e2], k, ReqVer::full(), *ctx) ==> module_at(es, e2, k).dep@.len()
                                == 0);
                        assert(es[e2].id@ == id@);
                    }
                    assert(names(ids@)[i as int] == id@);
                }
                return Err(ResolveError::UnknownMod(id));
            },
            Some(e) => e,
        };
        let entry = reg.entry(e);
        let k = match pick_release(entry, range, ctx) {
            None => {
                proof {
                    if i == 0 && root_leaf(es, root@, *ctx) {
                        let e2 = choose|e2: int| first_entry(es, root@, e2) && (exists|k: int|
                            newest_candidate(es[e2], k, ReqVer::full(), *ctx)) && (forall|k: int|
                            newest_candidate(es[e2], k, ReqVer::full(), *ctx) ==> module_at(es, e2, k).dep@.len()
                                == 0);
                        assert(e2 == e);
                        let k2 = choose|k2: int| newest_candidate(es[e2], k2, ReqVer::full(), *ctx);
                        assert(candidate(*entry, k2, range, *ctx));
                    }
                    assert(es[e as int].id@ == id@);
                    assert forall|e2: int| first_entry(es, id@, e2) implies forall|k2: int|
                        !candidate(es[e2], k2, range, *ctx) by {
                        assert(e2 == e);
                    }
                    assert(names(ids@)[i as int] == id@);
                    assert(first_entry(es, id@, e as int));
                    assert(entry_of(es, id@) == e);
                }
                return Err(ResolveError::Unsatisfiable(id, range));
            },
            Some(k) => k,
        };
        let v = entry.releases[k].version;
        let m = &entry.releases[k].module;
        let ghost picks_b = picks;
        let ghost out_b = out@;
        proof {
            assert(names(ids@)[i as int] == id@);
            assert(first_entry(es, id@, e as int));
            assert(entry_of(es, id@) == e);
            assert(candidate(*entry, k as int, range, *ctx));
            let kc = choose|kc: int| first_newest(*entry, kc, range, *ctx);
            if kc < k {
                assert(!newest_candidate(*entry, kc, range, *ctx));
            } else if k < kc {
                assert(!newest_candidate(*entry, k as int, range, *ctx));
            }
            assert(kc == k);
            if seen.contains(e as int) {
                let j = choose|j: int| 0 <= j < i && (#[trigger] picks[j]).0 == e as int;
                assert(placed(es, *ctx, ids@[j]@, out@[j].1, picks[j].0, picks[j].1));
                assert(ids@[j]@ == ids@[i as int]@);
            }
            lemma_int_range(0, n as int);
            lemma_len_subset(seen.insert(e as int), set_int_range(0, n as int));
            seen = seen.insert(e as int);
            picks = picks.push((e as int, k as int));
            assert forall|j: int| 0 <= j < i implies picks[j] == picks_b[j] by {}
            assert forall|t: int| 0 < t < ids@.len() implies exists|j: int|
                0 <= j < t && j <= i && requires_id(
                    module_at(es, picks[j].0, picks[j].1),
                    (#[trigger] ids@[t])@,
                ) by {
                let j = choose|j: int|
                    0 <= j < t && j < i && requires_id(
                        module_at(es, picks_b[j].0, picks_b[j].1),
                        (#[trigger] ids@[t])@,
                    );
                assert(picks[j] == picks_b[j]);
            }
            if i == 0 && root_leaf(es, root@, *ctx) {
                let e2 = choose|e2: int| first_entry(es, root@, e2) && (exists|k: int|
                    newest_candidate(es[e2], k, ReqVer::full(), *ctx)) && (forall|k: int|
                    newest_candidate(es[e2], k, ReqVer::full(), *ctx) ==> module_at(es, e2, k).dep@.len()
                        == 0);
                assert(e2 == e);
                assert(newest_candidate(es[e2], k as int, ReqVer::full(), *ctx));
            }
            if i == 0 {
                assert(es[e as int].id@ == root@);
                assert forall|e2: int| first_entry(es, root@, e2) implies exists|k2: int|
                    candidate(es[e2], k2, ReqVer::full(), *ctx) by {
                    assert(e2 == e);
                    assert(candidate(es[e2], k as int, ReqVer::full(), *ctx));
                }
            }
        }
        out.push((id, v));
        proof {
            assert(pairs(out@) =~= pairs(out_b).push((ids@[i as int]@, v)));
            lemma_decided_newest(es, *ctx, picks_b, out@, i as int, range, e as int, k as int);
            assert forall|t: int| 0 <= t < i implies #[trigger] newest_allowed(es, *ctx, out@, t) by {
                assert(out@.subrange(0, t) =~= out_b.subrange(0, t));
                assert(out@[t] == out_b[t]);
                assert(newest_allowed(es, *ctx, out_b, t));
            }
            assert forall|t: int, w: SemVer|
                i < t < ids@.len() && picks_allow(es, picks, i as int, 0, ids@[t]@, w) implies #[trigger] ranges@[t].has(w) by {
                assert forall|j: int, c: int|
                    #![trigger module_at(es, picks_b[j].0, picks_b[j].1).dep@[c]]
                    0 <= j < i && 0 <= c < module_at(es, picks_b[j].0, picks_b[j].1).dep@.len() && module_at(
                        es,
                        picks_b[j].0,
                        picks_b[j].1,
                    ).dep@[c].id@ == ids@[t]@ implies module_at(es, picks_b[j].0, picks_b[j].1).dep@[c].req.has(w) by {
                    assert(picks[j] == picks_b[j]);
                }
                assert(picks_allow(es, picks_b, i as int, 0, ids@[t]@, w));
            }
        }
        let ghost ids0 = ids@;
        let mut d: usize = 0;
        while d < m.dep.len()
            invariant
                n == es.len(),
                es == reg.entries(),
                i < ids@.len(),
                ids@.len() == ranges@.len(),
                ids@.len() >= ids0.len(),
                forall|t: int| 0 <= t < ids0.len() ==> ids@[t] == ids0[t],
                ids@[0]@ == root@,
                forall|s: int, t: int| 0 <= s < t < ids@.len() ==> (#[trigger] ids@[s])@ != (#[trigger] ids@[t])@,
                out@.len() == i + 1,
                picks.len() == i + 1,
                *m == module_at(es, picks[i as int].0, picks[i as int].1),
                d <= m.dep@.len(),
                forall|j: int| 0 <= j <= i ==> (#[trigger] out@[j]).0@ == ids@[j]@,
                forall|j: int|
                    0 <= j <= i ==> placed(es, *ctx, ids@[j]@, (#[trigger] out@[j]).1, picks[j].0, picks[j].1),
                forall|j: int| 0 <= j <= i ==> ranges@[j].has((#[trigger] out@[j]).1),
                forall|j: int, c: int|
                    0 <= j < i && 0 <= c < module_at(es, picks[j].0, picks[j].1).dep@.len()
                        ==> #[trigger] recorded(ids@, ranges@, module_at(es, picks[j].0, picks[j].1), c),
                forall|c: int| 0 <= c < d ==> #[trigger] recorded(ids@, ranges@, *m, c),
                picks[i as int] == (e as int, k as int),
                forall|t: int|
                    0 < t < ids@.len() ==> exists|j: int|
                        0 <= j < t && j <= i && requires_id(
                            module_at(es, picks[j].0, picks[j].1),
                            (#[trigger] ids@[t])@,
                        ),
                i > 0 ==> newest_candidate(es[picks[0].0], picks[0].1, ReqVer::full(), *ctx),
                i == 0 ==> newest_candidate(es[e as int], k as int, ReqVer::full(), *ctx),
                i < n,
                resolution(es, *ctx, root@) == after_decide(
                    es,
                    *ctx,
                    *m,
                    names(ids@),
                    ranges@,
                    pairs(out@),
                    i as int,
                    d as int,
                    (n - i) as nat,
                ),
                root_ok(es, root@, *ctx),
                forall|t: int| 0 <= t <= i ==> #[trigger] newest_allowed(es, *ctx, out@, t),
                forall|t: int, w: SemVer|
                    i < t < ids@.len() && picks_allow(es, picks, i as int, d as int, ids@[t]@, w) ==> #[trigger] ranges@[t].has(w),
                seen.finite(),
                seen.len() == i + 1,
                seen.subset_of(set_int_range(0, n as int)),
                forall|x: int| seen.contains(x) ==> exists|j: int| 0 <= j <= i && (#[trigger] picks[j]).0 == x,
                root_leaf(es, root@, *ctx) ==> i == 0 && m.dep@.len() == 0 && ids@.len() == 1,
            decreases m.dep.len() - d,
        {
            let dep = &m.dep[d];
            let ghost ids_b = ids@;
            let ghost ranges_b = ranges@;
            match position(&ids, &dep.id) {
                Some(j) => {
                    proof {
                        assert(names(ids@)[j as int] == dep.id@);
                        let jc = choose|jc: int| 0 <= jc < names(ids@).len() && names(ids@)[jc] == dep.id@;
                        if jc != j {
                            assert(ids@[jc]@ == ids@[j as int]@);
                        }
                        assert(id_index(names(ids@), dep.id@) == Some(j as int));
                        if j <= i {
                            assert(pairs(out@)[j as int].1 == out@[j as int].1);
                        }
                    }
                    let nr = ranges[j].intersect(&dep.req);
                    if nr.is_empty() {
                        return Err(ResolveError::Unsatisfiable(dep.id.clone(), nr));
                    }
                    if j <= i && !out[j].1.within(nr) {
                        proof {
                            assert(placed(es, *ctx, ids@[j as int]@, out@[j as int].1, picks[j as int].0, picks[j as int].1));
                            assert(placed(
                                es,
                                *ctx,
                                dep.id@,
                                es[picks[j as int].0].releases@[picks[j as int].1].version,
                                picks[j as int].0,
                                picks[j as int].1,
                            ));
                        }
                        return Err(ResolveError::Unsatisfiable(dep.id.clone(), nr));
                    }
                    ranges.set(j, nr);
                    proof {
                        assert(ranges@[j as int].within_range(ranges_b[j as int]));
                        assert(ranges@[j as int].within_range(dep.req));
                        lemma_recorded_kept(ids_b, ranges_b, ids@, ranges@);
                        assert(recorded(ids@, ranges@, *m, d as int));
                        assert forall|t: int, w: SemVer|
                            i < t < ids@.len() && picks_allow(es, picks, i as int, d + 1, ids@[t]@, w) implies #[trigger] ranges@[t].has(w) by {
                            assert(picks_allow(es, picks, i as int, d as int, ids@[t]@, w));
                            assert(ranges_b[t].has(w));
                            if t == j {
                                assert(module_at(es, picks[i as int].0, picks[i as int].1).dep@[d as int] == *dep);
                                assert(dep.req.has(w));
                            }
                        }
                    }
                },
                None => {
                    proof {
                        assert(!(exists|jc: int| 0 <= jc < names(ids@).len() && names(ids@)[jc] == dep.id@));
                    }
                    if dep.req.is_empty() {
                        return Err(ResolveError::Unsatisfiable(dep.id.clone(), dep.req));
                    }
                    ids.push(dep.id.clone());
                    ranges.push(dep.req);
                    proof {
                        assert(names(ids@) =~= names(ids_b).push(dep.id@));
                        lemma_recorded_kept(ids_b, ranges_b, ids@, ranges@);
                        let t = ids_b.len() as int;
                        assert(ids@[t]@ == m.dep@[d as int].id@);
                        assert(recorded(ids@, ranges@, *m, d as int));
                        assert(requires_id(module_at(es, picks[i as int].0, picks[i as int].1), ids@[t]@));
                        assert forall|t2: int, w: SemVer|
                            i < t2 < ids@.len() && picks_allow(es, picks, i as int, d + 1, ids@[t2]@, w) implies #[trigger] ranges@[t2].has(w) by {
                            assert(picks_allow(es, picks, i as int, d as int, ids@[t2]@, w));
                            if t2 == t {
                                assert(module_at(es, picks[i as int].0, picks[i as int].1).dep@[d as int] == *dep);
                                assert(dep.req.has(w));
                            } else {
                                assert(ranges_b[t2].has(w));
                            }
                        }
                    }
                },
            }
            d = d + 1;
        }
        proof {
            assert((n + 1 - (i + 1)) as nat == (n - i) as nat);
            assert forall|t: int, w: SemVer|
                i + 1 <= t < ids@.len() && picks_allow(es, picks, i + 1, 0, ids@[t]@, w) implies #[trigger] ranges@[t].has(w) by {
                assert(picks_allow(es, picks, i as int, m.dep@.len() as int, ids@[t]@, w));
            }
        }
        i = i + 1;
    }
    proof {
        assert(outcome(Ok::<Vec<(String, SemVer)>, ResolveError>(out)) == Ok::<
            Seq<(Seq<char>, SemVer)>,
            Stop,
        >(pairs(out@)));
        let a = out@;
        assert forall|x: int, y: int| 0 <= x < y < a.len() implies (#[trigger] a[x]).0@ != (
        #[trigger] a[y]).0@ by {
            assert(ids@[x]@ != ids@[y]@);
        }
        assert forall|x: int| 0 <= x < a.len() implies #[trigger] chosen_ok(es, *ctx, a, x) by {
            let pe = picks[x].0;
            let pk = picks[x].1;
            assert(placed(es, *ctx, ids@[x]@, out@[x].1, pe, pk));
            let mm = module_at(es, pe, pk);
            assert forall|c: int| #![trigger mm.dep@[c]] 0 <= c < mm.dep@.len() implies exists|j: int|
                0 <= j < a.len() && (#[trigger] a[j]).0@ == mm.dep@[c].id@ && mm.dep@[c].req.has(
                    a[j].1,
                ) by {
                assert(recorded(ids@, ranges@, mm, c));
                let t = choose|t: int|
                    0 <= t < ids@.len() && (#[trigger] ids@[t])@ == mm.dep@[c].id@
                        && ranges@[t].within_range(mm.dep@[c].req);
                assert(ranges@[t].has(out@[t].1));
                assert(a[t].0@ == ids@[t]@);
            }
            assert(placed(es, *ctx, a[x].0@, a[x].1, pe, pk) && deps_met(mm, a));
        }
        assert forall|y: int| 0 < y < a.len() implies #[trigger] named_before(es, *ctx, a, y) by {
            assert(ids@[y]@ == a[y].0@);
            let x = choose|x: int|
                0 <= x < y && x < i && requires_id(
                    module_at(es, picks[x].0, picks[x].1),
                    (#[trigger] ids@[y])@,
                );
            assert(placed(es, *ctx, ids@[x]@, out@[x].1, picks[x].0, picks[x].1));
            assert(placed(es, *ctx, a[x].0@, a[x].1, picks[x].0, picks[x].1));
        }
        assert(placed(es, *ctx, ids@[0]@, out@[0].1, picks[0].0, picks[0].1));
        assert(out@[0].0@ == root@);
        assert(newest_candidate(es[picks[0].0], picks[0].1, ReqVer::full(), *ctx));
        assert(es[picks[0].0].releases@[picks[0].1].version == out@[0].1);
        assert(distinct(a));
        assert(consistent(es, *ctx, a));
        assert(reached(es, *ctx, a));
        if ids@.len() > 1 {
            let x = choose|x: int|
                0 <= x < 1 && x < i && requires_id(
                    module_at(es, picks[x].0, picks[x].1),
                    (#[trigger] ids@[1])@,
                );
            assert(x == 0);
        }
    }
    Ok(out)
}

/// A root that the registry lacks stops the pass at once, naming the root.
pub proof fn lemma_unknown_root(es: Seq<ModEntry>, ctx: Context, root: Seq<char>)
    requires
        !known(es, root),
    ensures
        resolution(es, ctx, root) == Err::<Seq<(Seq<char>, SemVer)>, Stop>((root, None)),
{
    let ids = seq![root];
    assert(ids[0] == root);
}

/// A root with no release that the context accepts stops the pass at once,
/// naming the root and the unbounded range.
pub proof fn lemma_root_unsatisfiable(es: Seq<ModEntry>, ctx: Context, root: Seq<char>)
    requires
        known(es, root),
        forall|e: int| first_entry(es, root, e) ==> forall|k: int| !candidate(es[e], k, ReqVer::full(), ctx),
    ensures
        resolution(es, ctx, root) == Err::<Seq<(Seq<char>, SemVer)>, Stop>((root, Some(ReqVer::full()))),
{
    let ids = seq![root];
    let ranges = seq![ReqVer::full()];
    assert(ids[0] == root && ranges[0] == ReqVer::full());
    let e = choose|e: int| 0 <= e < es.len() && (#[trigger] es[e]).id@ == root;
    lemma_first_entry_exists(es, root, e);
    assert(first_entry(es, root, entry_of(es, root)));
}

/// A root whose newest accepted release has no dependencies resolves to that
/// release alone.
pub proof fn lemma_root_leaf(es: Seq<ModEntry>, ctx: Context, root: Seq<char>, e: int, k: int)
    requires
        first_entry(es, root, e),
        first_newest(es[e], k, ReqVer::full(), ctx),
        module_at(es, e, k).dep@.len() == 0,
    ensures
        resolution(es, ctx, root) == Ok::<Seq<(Seq<char>, SemVer)>, Stop>(
            seq![(root, es[e].releases@[k].version)],
        ),
{
    let ids = seq![root];
    let ranges = seq![ReqVer::full()];
    assert(ids[0] == root && ranges[0] == ReqVer::full());
    assert(known(es, root));
    assert(entry_of(es, root) == e);
    assert(candidate(es[e], k, ReqVer::full(), ctx));
    let kc = choose|kc: int| first_newest(es[e], kc, ReqVer::full(), ctx);
    if kc < k {
        assert(!newest_candidate(es[e], kc, ReqVer::full(), ctx));
    } else if k < kc {
        assert(!newest_candidate(es[e], k, ReqVer::full(), ctx));
    }
    let out2 = Seq::<(Seq<char>, SemVer)>::empty().push((root, es[e].releases@[k].version));
    assert(out2 =~= seq![(root, es[e].releases@[k].version)]);
    assert(derive(module_at(es, e, k), ids, ranges, out2, 0, 0) == Ok::<
        (Seq<Seq<char>>, Seq<ReqVer>),
        Stop,
    >((ids, ranges)));
    let f = es.len() as nat;
    assert(run_from(es, ctx, ids, ranges, out2, 1, f) == Ok::<Seq<(Seq<char>, SemVer)>, Stop>(out2));
    assert(after_decide(es, ctx, module_at(es, e, k), ids, ranges, out2, 0, 0, f) == run_from(
        es,
        ctx,
        ids,
        ranges,
        out2,
        1,
        f,
    ));
    assert(((es.len() + 1) as nat - 1) as nat == f);
    assert(run_from(es, ctx, ids, ranges, Seq::empty(), 0, (es.len() + 1) as nat) == after_decide(
        es,
        ctx,
        module_at(es, e, k),
        ids,
        ranges,
        out2,
        0,
        0,
        f,
    ));
}

/// A mod the table knows has a first entry.
proof fn lemma_first_entry_exists(es: Seq<ModEntry>, id: Seq<char>, e: int)
    requires
        0 <= e < es.len(),
        es[e].id@ == id,
    ensures
        exists|f: int| first_entry(es, id, f),
    decreases e,
{
    if forall|f: int| 0 <= f < e ==> (#[trigger] es[f]).id@ != id {
        assert(first_entry(es, id, e));
    } else {
        let f = choose|f: int| 0 <= f < e && (#[trigger] es[f]).id@ == id;
        lemma_first_entry_exists(es, id, f);
    }
}

} // verus!
