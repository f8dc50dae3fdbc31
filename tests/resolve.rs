use netherite::install::{add, check_artifact, check_md5, install, mod_storage, InstallError, MCInst, Plan};
use netherite::registry::{Context, Dep, FileRegistry, ModAPI, Module, ModuleError, Reg, Registry};
use netherite::req::parse_range;
use netherite::resolve::{resolve, ResolveError};
use netherite::version::{ReqVer, SemVer};

fn v(a: i16, b: i16, c: i16) -> SemVer {
    SemVer(a, b, c)
}

fn module(deps: &[(&str, &str)], platform: &str) -> Module {
    let dep = deps
        .iter()
        .map(|(id, r)| Dep { id: id.to_string(), req: parse_range(r).unwrap() })
        .collect();
    Module::new(
        "A mod".to_string(),
        "MIT".to_string(),
        vec!["https://example.com/a.jar".to_string()],
        "0123456789abcdef0123456789abcdef".to_string(),
        dep,
        parse_range(platform).unwrap(),
        (ModAPI::DataPack, ReqVer::unbounded()),
    )
    .unwrap()
}

fn context(platform: SemVer) -> Context {
    Context { platform, loaders: vec![(ModAPI::DataPack, v(1, 0, 0))] }
}

fn registry(items: Vec<(&str, SemVer, Module)>) -> Registry {
    let mut f = FileRegistry::new();
    for (id, ver, m) in items {
        f.insert(id.to_string(), ver, m);
    }
    Registry::File(f)
}

fn ids(a: &[(String, SemVer)]) -> Vec<(&str, SemVer)> {
    a.iter().map(|(s, x)| (s.as_str(), *x)).collect()
}

#[test]
fn single_mod_without_dependencies() {
    let reg = registry(vec![("core", v(1, 0, 0), module(&[], "*"))]);
    let a = resolve("core", &reg, &context(v(1, 0, 0))).unwrap();
    assert_eq!(ids(&a), vec![("core", v(1, 0, 0))]);
}

#[test]
fn platform_range_excludes_context() {
    let reg = registry(vec![("core", v(1, 0, 0), module(&[], ">=2.0.0"))]);
    match resolve("core", &reg, &context(v(1, 0, 0))) {
        Err(ResolveError::Unsatisfiable(id, r)) => {
            assert_eq!(id, "core");
            assert_eq!(r, ReqVer::unbounded());
        }
        other => panic!("unexpected {:?}", other),
    }
}

#[test]
fn missing_loader_is_unsatisfiable() {
    let reg = registry(vec![("core", v(1, 0, 0), module(&[], "*"))]);
    let ctx = Context { platform: v(1, 0, 0), loaders: vec![(ModAPI::Forge, v(1, 0, 0))] };
    assert!(matches!(resolve("core", &reg, &ctx), Err(ResolveError::Unsatisfiable(_, _))));
}

#[test]
fn no_version_of_dependency_in_range() {
    let reg = registry(vec![
        ("a", v(1, 0, 0), module(&[("b", ">=1.0.0, <2.0.0")], "*")),
        ("b", v(2, 0, 0), module(&[], "*")),
        ("b", v(2, 1, 0), module(&[], "*")),
    ]);
    for _ in 0..3 {
        match resolve("a", &reg, &context(v(1, 0, 0))) {
            Err(ResolveError::Unsatisfiable(id, r)) => {
                assert_eq!(id, "b");
                assert_eq!(r, parse_range(">=1.0.0, <2.0.0").unwrap());
            }
            other => panic!("unexpected {:?}", other),
        }
    }
}

#[test]
fn highest_compatible_version_wins() {
    let reg = registry(vec![
        ("a", v(1, 0, 0), module(&[("b", ">=1.0.0")], "*")),
        ("b", v(1, 0, 0), module(&[], "*")),
        ("b", v(1, 5, 0), module(&[], "*")),
        ("b", v(1, 2, 0), module(&[], "*")),
    ]);
    for _ in 0..5 {
        let a = resolve("a", &reg, &context(v(1, 0, 0))).unwrap();
        assert_eq!(ids(&a), vec![("a", v(1, 0, 0)), ("b", v(1, 5, 0))]);
    }
}

#[test]
fn constraints_from_two_dependents_are_intersected() {
    let reg = registry(vec![
        ("a", v(1, 0, 0), module(&[("b", ">=1.0.0"), ("c", ">=1.0.0")], "*")),
        ("b", v(1, 0, 0), module(&[("c", "<1.5.0")], "*")),
        ("c", v(1, 0, 0), module(&[], "*")),
        ("c", v(1, 4, 0), module(&[], "*")),
        ("c", v(1, 9, 0), module(&[], "*")),
    ]);
    let a = resolve("a", &reg, &context(v(1, 0, 0))).unwrap();
    assert_eq!(ids(&a), vec![("a", v(1, 0, 0)), ("b", v(1, 0, 0)), ("c", v(1, 4, 0))]);
}

#[test]
fn late_conflict_is_terminal() {
    let reg = registry(vec![
        ("a", v(1, 0, 0), module(&[("b", ">=1.0.0"), ("c", ">=1.0.0")], "*")),
        ("b", v(2, 0, 0), module(&[], "*")),
        ("b", v(1, 0, 0), module(&[], "*")),
        ("c", v(1, 0, 0), module(&[("b", "<2.0.0")], "*")),
    ]);
    match resolve("a", &reg, &context(v(1, 0, 0))) {
        Err(ResolveError::Unsatisfiable(id, _)) => assert_eq!(id, "b"),
        other => panic!("unexpected {:?}", other),
    }
}

#[test]
fn dependency_cycle_resolves() {
    let reg = registry(vec![
        ("a", v(1, 0, 0), module(&[("b", ">=1.0.0")], "*")),
        ("b", v(1, 0, 0), module(&[("a", "=1.0.0")], "*")),
    ]);
    let a = resolve("a", &reg, &context(v(1, 0, 0))).unwrap();
    assert_eq!(ids(&a), vec![("a", v(1, 0, 0)), ("b", v(1, 0, 0))]);
}

#[test]
fn unknown_mods_are_reported() {
    let reg = registry(vec![("a", v(1, 0, 0), module(&[("ghost", ">=1.0.0")], "*"))]);
    match resolve("nothing", &reg, &context(v(1, 0, 0))) {
        Err(ResolveError::UnknownMod(id)) => assert_eq!(id, "nothing"),
        other => panic!("unexpected {:?}", other),
    }
    match resolve("a", &reg, &context(v(1, 0, 0))) {
        Err(ResolveError::UnknownMod(id)) => assert_eq!(id, "ghost"),
        other => panic!("unexpected {:?}", other),
    }
}

#[test]
fn registry_queries() {
    let reg = registry(vec![
        ("b", v(1, 0, 0), module(&[], "*")),
        ("b", v(1, 2, 0), module(&[("c", ">=1.0.0")], "*")),
        ("b", v(3, 0, 0), module(&[], ">=9.0.0")),
    ]);
    let ctx = context(v(1, 0, 0));
    assert_eq!(reg.choose_package_version("b", ReqVer::unbounded(), &ctx).unwrap(), Some(v(1, 2, 0)));
    assert_eq!(reg.choose_package_version("b", ReqVer::lt(v(1, 2, 0)), &ctx).unwrap(), Some(v(1, 0, 0)));
    assert_eq!(reg.choose_package_version("b", ReqVer::ge(v(2, 0, 0)), &ctx).unwrap(), None);
    assert!(matches!(
        reg.choose_package_version("x", ReqVer::unbounded(), &ctx),
        Err(ResolveError::UnknownMod(_))
    ));
    let d = reg.get_dependencies("b", v(1, 2, 0)).unwrap();
    assert_eq!(d.len(), 1);
    assert_eq!(d[0].id, "c");
    assert!(matches!(reg.get_dependencies("b", v(9, 9, 9)), Err(ResolveError::UnknownVersion(_, _))));
    assert!(matches!(reg.get_dependencies("x", v(1, 0, 0)), Err(ResolveError::UnknownMod(_))));
    assert_eq!(reg.query("b").unwrap().releases.len(), 3);
    assert_eq!(reg.query("b").unwrap().releases[2].version, v(3, 0, 0));
    assert!(reg.query("x").is_none());
}

#[test]
fn module_metadata_is_checked() {
    let bad_license = Module::new(
        "m".to_string(),
        "NOT A LICENSE (".to_string(),
        vec![],
        String::new(),
        vec![],
        ReqVer::unbounded(),
        (ModAPI::Forge, ReqVer::unbounded()),
    );
    assert_eq!(bad_license.unwrap_err(), ModuleError::License);
    let bad_url = Module::new(
        "m".to_string(),
        "MIT OR Apache-2.0".to_string(),
        vec!["https://example.com/x".to_string(), "not a url".to_string()],
        String::new(),
        vec![],
        ReqVer::unbounded(),
        (ModAPI::Forge, ReqVer::unbounded()),
    );
    assert_eq!(bad_url.unwrap_err(), ModuleError::Url(1));
}

#[test]
fn check_inst_needs_platform_and_loader() {
    let m = module(&[], ">=1.0.0, <2.0.0");
    assert!(m.check_inst(&context(v(1, 5, 0))));
    assert!(!m.check_inst(&context(v(2, 0, 0))));
    let no_loader = Context { platform: v(1, 5, 0), loaders: vec![] };
    assert!(!m.check_inst(&no_loader));
}

fn instance(mods: Vec<(&str, SemVer)>) -> MCInst {
    MCInst {
        version: v(1, 0, 0),
        api: vec![(ModAPI::DataPack, v(1, 0, 0))],
        modlist: mods.into_iter().map(|(s, x)| (s.to_string(), x)).collect(),
        comment: None,
    }
}

#[test]
fn install_of_installed_mod_does_nothing() {
    let reg = registry(vec![("core", v(1, 0, 0), module(&[], "*"))]);
    let inst = instance(vec![("core", v(1, 0, 0))]);
    let ctx = inst.context();
    assert!(matches!(install("core", &reg, &inst, &ctx), Ok(Plan::Installed)));
    let empty = registry(vec![]);
    assert!(matches!(install("core", &empty, &inst, &ctx), Ok(Plan::Installed)));
}

#[test]
fn install_plans_every_artifact() {
    let reg = registry(vec![
        ("a", v(1, 0, 0), module(&[("b", ">=1.0.0")], "*")),
        ("b", v(1, 1, 0), module(&[], "*")),
    ]);
    let inst = instance(vec![]);
    let ctx = inst.context();
    match install("a", &reg, &inst, &ctx) {
        Ok(Plan::Fetch(root, arts)) => {
            assert_eq!(root, v(1, 0, 0));
            assert_eq!(arts.len(), 2);
            assert_eq!(arts[1].id, "b");
            assert_eq!(arts[1].version, v(1, 1, 0));
            assert_eq!(arts[1].urls, vec!["https://example.com/a.jar".to_string()]);
            assert_eq!(arts[1].md5, "0123456789abcdef0123456789abcdef");
        }
        other => panic!("unexpected {:?}", other),
    }
}

#[test]
fn install_without_download_source_fails() {
    let m = Module::new(
        "m".to_string(),
        "MIT".to_string(),
        vec![],
        String::new(),
        vec![],
        ReqVer::unbounded(),
        (ModAPI::DataPack, ReqVer::unbounded()),
    )
    .unwrap();
    let reg = registry(vec![("core", v(1, 0, 0), m)]);
    let inst = instance(vec![]);
    let ctx = inst.context();
    match install("core", &reg, &inst, &ctx) {
        Err(InstallError::EmptyDistribution(id)) => assert_eq!(id, "core"),
        other => panic!("unexpected {:?}", other),
    }
}

#[test]
fn checksum_mismatch_is_an_integrity_error() {
    assert!(check_md5("0123abcd", "0123ABCD").is_ok());
    assert!(check_md5("0123abcd", "0123abcd").is_ok());
    match check_md5("0123abcd", "0123abce") {
        Err(InstallError::Integrity(got, want)) => {
            assert_eq!(got, "0123abcd");
            assert_eq!(want, "0123abce");
        }
        other => panic!("unexpected {:?}", other),
    }
    assert!(check_md5("0123", "01234").is_err());
}

#[test]
fn storage_path_is_keyed_by_mod_and_version() {
    assert_eq!(mod_storage("/opt/netherite", "core", &v(1, 2, 3)), "/opt/netherite/mod/core/1.2.3");
}

#[test]
fn record_adds_or_replaces() {
    let mut inst = instance(vec![("a", v(1, 0, 0))]);
    inst.record("b".to_string(), v(2, 0, 0));
    inst.record("a".to_string(), v(1, 1, 0));
    assert_eq!(
        inst.modlist,
        vec![("a".to_string(), v(1, 1, 0)), ("b".to_string(), v(2, 0, 0))]
    );
    assert!(inst.has_mod("b"));
    assert!(!inst.has_mod("c"));
}

#[test]
fn add_looks_up_one_version() {
    let reg = registry(vec![
        ("core", v(1, 0, 0), module(&[], "*")),
        ("core", v(1, 1, 0), module(&[], "*")),
    ]);
    let art = add(&reg, "core", v(1, 1, 0)).unwrap();
    assert_eq!(art.id, "core");
    assert_eq!(art.version, v(1, 1, 0));
    assert_eq!(art.spdx, "MIT");
    assert_eq!(art.urls.len(), 1);
    assert!(matches!(
        add(&reg, "core", v(2, 0, 0)),
        Err(InstallError::Resolve(ResolveError::UnknownVersion(_, _)))
    ));
    assert!(matches!(
        add(&reg, "other", v(1, 0, 0)),
        Err(InstallError::Resolve(ResolveError::UnknownMod(_)))
    ));
}

#[test]
fn versions_are_kept_in_ascending_order() {
    let reg = registry(vec![
        ("b", v(1, 5, 0), module(&[], "*")),
        ("b", v(1, 0, 0), module(&[], "*")),
        ("b", v(1, 2, 0), module(&[], "*")),
        ("b", v(1, 2, 0), module(&[("c", ">=1.0.0")], "*")),
    ]);
    assert_eq!(reg.all_versions("b").unwrap(), vec![v(1, 0, 0), v(1, 2, 0), v(1, 5, 0)]);
    assert!(reg.all_versions("x").is_none());
    let m = reg.module("b", v(1, 2, 0)).unwrap();
    assert_eq!(m.dep.len(), 1);
    assert!(matches!(reg.module("b", v(9, 0, 0)), Err(ResolveError::UnknownVersion(_, _))));
    assert!(matches!(reg.module("x", v(1, 0, 0)), Err(ResolveError::UnknownMod(_))));
}

#[test]
fn core_scenario() {
    let m = Module::new(
        "Core".to_string(),
        "MIT".to_string(),
        vec!["https://example.com/core.jar".to_string()],
        "d41d8cd98f00b204e9800998ecf8427e".to_string(),
        vec![],
        ReqVer::unbounded(),
        (ModAPI::DataPack, ReqVer::unbounded()),
    )
    .unwrap();
    let reg = registry(vec![("core", v(1, 0, 0), m)]);
    let a = resolve("core", &reg, &context(v(1, 0, 0))).unwrap();
    assert_eq!(ids(&a), vec![("core", v(1, 0, 0))]);
}

#[test]
fn install_reports_resolution_failures() {
    let inst = instance(vec![]);
    let ctx = inst.context();
    let reg = registry(vec![
        ("core", v(1, 0, 0), module(&[], ">=2.0.0")),
        ("a", v(1, 0, 0), module(&[("b", ">=1.0.0, <2.0.0")], "*")),
        ("b", v(2, 0, 0), module(&[], "*")),
        ("b", v(2, 1, 0), module(&[], "*")),
    ]);
    match install("nothing", &reg, &inst, &ctx) {
        Err(InstallError::Resolve(ResolveError::UnknownMod(id))) => assert_eq!(id, "nothing"),
        other => panic!("unexpected {:?}", other),
    }
    match install("core", &reg, &inst, &ctx) {
        Err(InstallError::Resolve(ResolveError::Unsatisfiable(id, r))) => {
            assert_eq!(id, "core");
            assert_eq!(r, ReqVer::unbounded());
        }
        other => panic!("unexpected {:?}", other),
    }
    for _ in 0..3 {
        match install("a", &reg, &inst, &ctx) {
            Err(InstallError::Resolve(ResolveError::Unsatisfiable(id, r))) => {
                assert_eq!(id, "b");
                assert_eq!(r, parse_range(">=1.0.0, <2.0.0").unwrap());
            }
            other => panic!("unexpected {:?}", other),
        }
    }
}

#[test]
fn install_plans_core_scenario() {
    let reg = registry(vec![("core", v(1, 0, 0), module(&[], "*"))]);
    let inst = instance(vec![]);
    let ctx = inst.context();
    match install("core", &reg, &inst, &ctx) {
        Ok(Plan::Fetch(root, arts)) => {
            assert_eq!(root, v(1, 0, 0));
            assert_eq!(arts.len(), 1);
            assert_eq!(arts[0].id, "core");
            assert_eq!(arts[0].version, v(1, 0, 0));
        }
        other => panic!("unexpected {:?}", other),
    }
}

#[test]
fn artifact_bytes_are_checked() {
    let bytes = b"abc".to_vec();
    assert!(check_artifact(&bytes, "900150983cd24fb0d6963f7d28e17f72").is_ok());
    assert!(check_artifact(&bytes, "900150983CD24FB0D6963F7D28E17F72").is_ok());
    match check_artifact(&bytes, "d41d8cd98f00b204e9800998ecf8427e") {
        Err(InstallError::Integrity(got, want)) => {
            assert_eq!(got, "900150983cd24fb0d6963f7d28e17f72");
            assert_eq!(want, "d41d8cd98f00b204e9800998ecf8427e");
        }
        other => panic!("unexpected {:?}", other),
    }
}
