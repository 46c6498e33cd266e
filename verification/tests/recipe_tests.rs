use bootstrapper::recipe::{
    _default_false, _default_true, generate_recipe_hashes, get_bare_recipe_hash_from_recipe,
    get_depd_hash_from_recipe, target_and_version, BareRecipeHash, DepSpec, DepdRecipeHash,
    HydratedDepSpec, HydratedRecipeVersion, NamedRecipeVersion, RecipeBuildStep,
    RecipeBuildSteps, RecipeVersion,
};

fn encode(r: &HydratedRecipeVersion) -> Vec<u8> {
    format!("{:?}", r).into_bytes()
}

fn sample(deps: Vec<HydratedDepSpec>) -> HydratedRecipeVersion {
    HydratedRecipeVersion {
        name: "zlib".to_string(),
        version: "1.3".to_string(),
        source: Vec::new(),
        deps,
        mkdirs: vec!["out".to_string()],
        build: RecipeBuildSteps::Single {
            single: vec![RecipeBuildStep::Simple("make".to_string())],
        },
        artefacts: vec!["libz.a".to_string()],
        envs: Vec::new(),
        overlays: Vec::new(),
        bare_hash: BareRecipeHash(String::new()),
        depd_hash: DepdRecipeHash(String::new()),
    }
}

fn is_digest(s: &str) -> bool {
    s.len() == 64 && s.chars().all(|c| c.is_ascii_digit() || ('a'..='f').contains(&c))
}

#[test]
fn dep_spec_name_and_version() {
    let d = DepSpec::from("gcc:12.1".to_string());
    assert_eq!(d.name, "gcc");
    assert_eq!(d.version, "12.1");
    assert_eq!(d.from, None);
    assert_eq!(d.to, None);
}

#[test]
fn dep_spec_from_and_to() {
    let d = DepSpec::from("gcc:12:/usr:/opt:ignored".to_string());
    assert_eq!(d.name, "gcc");
    assert_eq!(d.version, "12");
    assert_eq!(d.from.as_deref(), Some("/usr"));
    assert_eq!(d.to.as_deref(), Some("/opt"));
    let e = DepSpec::from("gcc::".to_string());
    assert_eq!(e.version, "");
    assert_eq!(e.from.as_deref(), Some(""));
}

#[test]
fn dep_spec_written_then_read() {
    let name = "binutils";
    let version = "2.41";
    let d = DepSpec::from(format!("{}:{}", name, version));
    assert_eq!((d.name.as_str(), d.version.as_str()), (name, version));
    assert!(d.from.is_none() && d.to.is_none());
}

#[test]
fn defaults_of_build_flags() {
    assert!(_default_true());
    assert!(!_default_false());
}

fn recipe_version(deps: Option<Vec<String>>) -> RecipeVersion {
    RecipeVersion {
        licenses: None,
        source: None,
        deps,
        mkdirs: None,
        build: RecipeBuildSteps::Single { single: Vec::new() },
        artefacts: vec!["a".to_string()],
    }
}

#[test]
fn named_recipe_reads_its_deps() {
    let rv = recipe_version(Some(vec!["a:1".to_string(), "b:2:x".to_string()]));
    let n = NamedRecipeVersion::from(("pkg".to_string(), "3".to_string(), rv));
    assert_eq!(n.name, "pkg");
    assert_eq!(n.version, "3");
    let deps = n.deps.unwrap();
    assert_eq!(deps.len(), 2);
    assert_eq!(deps[1].name, "b");
    assert_eq!(deps[1].from.as_deref(), Some("x"));
    assert_eq!(n.artefacts, vec!["a".to_string()]);
}

#[test]
fn load_by_name_splits_at_first_colon() {
    let n = NamedRecipeVersion::load_by_name("tool:1.0:rc", recipe_version(None));
    assert_eq!(n.name, "tool");
    assert_eq!(n.version, "1.0:rc");
    assert!(n.deps.is_none());
    let t = NamedRecipeVersion::load_by_target_version("tool", "2", recipe_version(None));
    assert_eq!((t.name.as_str(), t.version.as_str()), ("tool", "2"));
    assert_eq!(target_and_version("nocolon"), None);
    assert_eq!(
        target_and_version("a:b"),
        Some(("a".to_string(), "b".to_string()))
    );
}

#[test]
fn bare_hash_leaves_deps_out() {
    let dep = HydratedDepSpec {
        hash: DepdRecipeHash("d".repeat(64)),
        from: None,
        to: Some("/x".to_string()),
    };
    let with = sample(vec![dep]);
    let without = sample(Vec::new());
    let (bare_a, depd_a) = generate_recipe_hashes(&with, &encode);
    let (bare_b, depd_b) = generate_recipe_hashes(&without, &encode);
    assert_eq!(bare_a, bare_b);
    assert_ne!(depd_a, depd_b);
    assert_eq!(bare_b.0, depd_b.0);
    assert!(is_digest(&bare_a.0) && is_digest(&depd_a.0));
}

#[test]
fn depd_hash_is_digest_of_encoding() {
    let r = sample(Vec::new());
    let (_, depd) = generate_recipe_hashes(&r, &encode);
    let expected = bootstrapper::recipe::equiv_hash_of_archive(&encode(&r));
    assert_eq!(depd.0, expected.0);
}

#[test]
fn recorded_hashes_are_read() {
    let mut r = sample(Vec::new());
    r.bare_hash = BareRecipeHash("b".to_string());
    r.depd_hash = DepdRecipeHash("c".to_string());
    assert_eq!(get_bare_recipe_hash_from_recipe(&r).0, "b");
    assert_eq!(get_depd_hash_from_recipe(&r).0, "c");
}

#[test]
fn digest_of_known_bytes() {
    let h = bootstrapper::recipe::equiv_hash_of_archive(b"hello");
    assert_eq!(
        h.0,
        "2cf24dba5fb0a30e26e83b2ac5b9e29e1b161e5c1fa7425e73043362938b9824"
    );
}

#[test]
fn equal_recipes_get_equal_hashes() {
    let a = sample(Vec::new());
    let b = a.clone();
    assert_eq!(generate_recipe_hashes(&a, &encode), generate_recipe_hashes(&b, &encode));
    let mut c = a.clone();
    c.version = "1.4".to_string();
    assert_ne!(generate_recipe_hashes(&a, &encode).1, generate_recipe_hashes(&c, &encode).1);
}
