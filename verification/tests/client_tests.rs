use bootstrapper::client::{
    hydrate_recipe, parse_env, plan_hydration, read_env_file, recipe_name_of_path, version_of_file_name, RecipeIndex,
    SourceTable,
};
use bootstrapper::recipe::{
    equiv_hash_of_archive, generate_recipe_hashes, BareRecipeHash, DepSpec, DepdRecipeHash,
    HydratedDepSpec, HydratedRecipeVersion, NamedRecipeVersion, RecipeBuildStep, RecipeBuildSteps,
    Source, SourceContents, SourceMap,
};

fn encode(r: &HydratedRecipeVersion) -> Vec<u8> {
    format!("{:?}", r).into_bytes()
}

fn pair(a: &str, b: &str) -> (String, String) {
    (a.to_string(), b.to_string())
}

fn named(name: &str, source: Option<Vec<(String, Source)>>, deps: Option<Vec<DepSpec>>) -> NamedRecipeVersion {
    NamedRecipeVersion {
        name: name.to_string(),
        version: "1".to_string(),
        source: source.map(SourceMap::from_entries),
        deps,
        mkdirs: None,
        build: RecipeBuildSteps::Single {
            single: vec![RecipeBuildStep::Simple("make".to_string())],
        },
        artefacts: vec!["out".to_string()],
    }
}

fn plain_source() -> Source {
    Source {
        extract: Some("tar".to_string()),
        noextract: None,
        copy: None,
        chmod: None,
    }
}

fn contents() -> SourceContents {
    SourceContents {
        url: "https://example.org/z.tar".to_string(),
        sha: "f".repeat(64),
    }
}

#[test]
fn env_lines_are_read() {
    assert_eq!(
        parse_env("CC=gcc\nPATH=\"/bin:/usr/bin\""),
        Some(vec![pair("CC", "gcc"), pair("PATH", "/bin:/usr/bin")])
    );
    assert_eq!(parse_env("A=b=c"), Some(vec![pair("A", "b=c")]));
    assert_eq!(parse_env("A=1\n"), None);
    assert_eq!(parse_env("novalue"), None);
}

#[test]
fn env_file_is_read_when_present() {
    assert_eq!(read_env_file(None), Some(Vec::new()));
    assert_eq!(read_env_file(Some(b"X=\"y\"".to_vec())), Some(vec![pair("X", "y")]));
    assert_eq!(read_env_file(Some(vec![0xc3, 0x28])), None);
}

#[test]
fn file_name_gives_version() {
    assert_eq!(version_of_file_name("1.2.3.yaml"), "1.2.3");
    assert_eq!(version_of_file_name("2.yaml.yaml"), "2");
    assert_eq!(version_of_file_name("3.yml"), "3.yml");
}

#[test]
fn source_table_records_by_name() {
    let mut t = SourceTable::new();
    assert_eq!(t.get("zlib"), None);
    t.insert("zlib".to_string(), contents());
    assert_eq!(t.get("zlib"), Some(contents()));
    let other = SourceContents { url: "u".to_string(), sha: "s".to_string() };
    t.insert("zlib".to_string(), other.clone());
    assert_eq!(t.get("zlib"), Some(other));
    assert_eq!(t.get("gcc"), None);
}

#[test]
fn recipe_index_finds_by_name_and_version() {
    let mut index = RecipeIndex::new();
    let a = hydrate_recipe(named("a", None, None), &index, &SourceTable::new(), Vec::new(), None, &encode)
        .unwrap();
    assert!(index.get("a", "1").is_none());
    index.insert(a.clone());
    assert_eq!(index.get("a", "1"), Some(&a));
    assert!(index.get("a", "2").is_none());
    let mut a2 = a.clone();
    a2.artefacts = vec!["other".to_string()];
    index.insert(a2.clone());
    assert_eq!(index.get("a", "1"), Some(&a2));
    assert_eq!(index.recipes().len(), 1);
}

#[test]
fn hydration_resolves_sources_deps_and_envs() {
    let mut sources = SourceTable::new();
    sources.insert("zsrc".to_string(), contents());
    let mut index = RecipeIndex::new();
    let base = hydrate_recipe(named("base", None, None), &index, &sources, Vec::new(), None, &encode)
        .unwrap();
    index.insert(base.clone());
    let dep = DepSpec {
        name: "base".to_string(),
        version: "1".to_string(),
        from: Some("/a".to_string()),
        to: None,
    };
    let recipe = named(
        "top",
        Some(vec![("zsrc".to_string(), plain_source())]),
        Some(vec![dep]),
    );
    let overlays = vec![("patches/fix.patch".to_string(), b"diff".to_vec())];
    let top = hydrate_recipe(
        recipe,
        &index,
        &sources,
        overlays.clone(),
        Some(b"K=\"v\"".to_vec()),
        &encode,
    )
    .unwrap();
    assert_eq!(top.name, "top");
    assert_eq!(top.source, vec![(plain_source(), contents())]);
    assert_eq!(
        top.deps,
        vec![HydratedDepSpec { hash: base.depd_hash.clone(), from: Some("/a".to_string()), to: None }]
    );
    assert_eq!(top.mkdirs, Vec::<String>::new());
    assert_eq!(top.envs, vec![pair("K", "v")]);
    assert_eq!(top.overlays, overlays);
    let mut unhashed = top.clone();
    unhashed.bare_hash = BareRecipeHash(String::new());
    unhashed.depd_hash = DepdRecipeHash(String::new());
    assert_eq!(top.depd_hash.0, equiv_hash_of_archive(&encode(&unhashed)).0);
    let (bare, depd) = generate_recipe_hashes(&unhashed, &encode);
    assert_eq!((bare, depd), (top.bare_hash.clone(), top.depd_hash.clone()));
}

#[test]
fn hydration_needs_known_names() {
    let sources = SourceTable::new();
    let index = RecipeIndex::new();
    assert!(sources.get("missing").is_none());
    assert!(index.get("x", "9").is_none());
    assert!(read_env_file(Some(b"oops".to_vec())).is_none());
    let plain = named("e", None, None);
    assert!(hydrate_recipe(plain, &index, &sources, Vec::new(), Some(b"A=b".to_vec()), &encode).is_some());
}

#[test]
fn hydration_order_puts_deps_first() {
    let keys = vec![pair("app", "1"), pair("lib", "2"), pair("tool", "1")];
    let deps = vec![vec![pair("lib", "2"), pair("tool", "1")], vec![pair("tool", "1")], vec![]];
    assert_eq!(plan_hydration(&keys, &deps), Some(vec![2, 1, 0]));
    let flat = vec![vec![], vec![], vec![]];
    assert_eq!(plan_hydration(&keys, &flat), Some(vec![0, 1, 2]));
    let chained = vec![vec![], vec![pair("app", "1")], vec![pair("lib", "2")]];
    assert_eq!(plan_hydration(&keys, &chained), Some(vec![0, 1, 2]));
}

#[test]
fn hydration_order_refuses_missing_and_cycles() {
    let keys = vec![pair("a", "1"), pair("b", "1")];
    assert_eq!(plan_hydration(&keys, &vec![vec![pair("c", "1")], vec![]]), None);
    assert_eq!(
        plan_hydration(&keys, &vec![vec![pair("b", "1")], vec![pair("a", "1")]]),
        None
    );
    assert_eq!(plan_hydration(&Vec::new(), &Vec::new()), Some(Vec::new()));
}

#[test]
fn hydrating_in_planned_order_finds_deps() {
    let keys = vec![pair("app", "1"), pair("lib", "1"), pair("zlib", "1")];
    let deps = vec![vec![pair("lib", "1")], vec![pair("zlib", "1")], vec![]];
    let order = plan_hydration(&keys, &deps).unwrap();
    let sources = SourceTable::new();
    let mut index = RecipeIndex::new();
    for i in order {
        let dep_specs: Vec<DepSpec> = deps[i]
            .iter()
            .map(|(n, v)| DepSpec::from(format!("{}:{}", n, v)))
            .collect();
        let recipe = named(&keys[i].0, None, Some(dep_specs));
        let hydrated = hydrate_recipe(recipe, &index, &sources, Vec::new(), None, &encode).unwrap();
        index.insert(hydrated);
    }
    let app = index.get("app", "1").unwrap();
    let lib = index.get("lib", "1").unwrap();
    assert_eq!(app.deps[0].hash, lib.depd_hash);
    assert_eq!(index.recipes().len(), 3);
}

fn source_named(extract: &str) -> Source {
    Source {
        extract: Some(extract.to_string()),
        noextract: None,
        copy: None,
        chmod: None,
    }
}

#[test]
fn sources_listed_by_name_later_entry_wins() {
    let map = SourceMap::from_entries(vec![
        ("zlib".to_string(), source_named("z1")),
        ("bash".to_string(), source_named("b")),
        ("zlib".to_string(), source_named("z2")),
    ]);
    assert_eq!(
        map.entries(),
        &vec![("bash".to_string(), source_named("b")), ("zlib".to_string(), source_named("z2"))]
    );
    let mut sources = SourceTable::new();
    sources.insert("zlib".to_string(), contents());
    sources.insert("bash".to_string(), contents());
    let recipe = named(
        "top",
        Some(vec![("zlib".to_string(), source_named("z")), ("bash".to_string(), source_named("b"))]),
        None,
    );
    let top = hydrate_recipe(recipe, &RecipeIndex::new(), &sources, Vec::new(), None, &encode).unwrap();
    assert_eq!(top.source, vec![(source_named("b"), contents()), (source_named("z"), contents())]);
}

#[test]
fn recipe_names_from_paths() {
    assert_eq!(recipe_name_of_path("recipes/zlib/1.2.yaml"), Some("zlib".to_string()));
    assert_eq!(recipe_name_of_path("recipes/lang/rust/1.0.yaml"), Some("lang/rust".to_string()));
    assert_eq!(recipe_name_of_path("recipes/1.yaml"), Some(String::new()));
    assert_eq!(recipe_name_of_path("other/zlib/1.yaml"), None);
    assert_eq!(recipe_name_of_path("recipesx/zlib/1.yaml"), None);
    assert_eq!(recipe_name_of_path("1.yaml"), None);
}
