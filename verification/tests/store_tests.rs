use bootstrapper::dispatch::{should_build, BuildClaims, WorkPool};
use bootstrapper::recipe::{
    equiv_hash_of_archive, find_ready, generate_recipe_hashes, get_eq_depd_hash_from_depd_hash,
    get_eq_depd_hash_from_recipe, get_equiv_hash_from_depd_hash, get_equiv_hash_from_eq_depd,
    get_equiv_hash_from_recipe, equiv_from_db_answer, record_equiv, test_eq_hash_from_depd_hash, BareRecipeHash,
    DepdRecipeHash, EqDepdRecipeHash, EquivHash, HydratedDepSpec, HydratedRecipeVersion,
    RecipeBuildStep, RecipeBuildSteps, RecipeStore, StoreError,
};

fn encode(r: &HydratedRecipeVersion) -> Vec<u8> {
    format!("{:?}", r).into_bytes()
}

fn temp_db() -> sled::Db {
    sled::Config::new().temporary(true).open().unwrap()
}

fn hydrated(name: &str, deps: Vec<HydratedDepSpec>) -> HydratedRecipeVersion {
    let mut r = HydratedRecipeVersion {
        name: name.to_string(),
        version: "1".to_string(),
        source: Vec::new(),
        deps,
        mkdirs: Vec::new(),
        build: RecipeBuildSteps::Single {
            single: vec![RecipeBuildStep::Complex {
                cmd: format!("make {}", name),
                serial: true,
                bash: false,
            }],
        },
        artefacts: vec![format!("{}.tar", name)],
        envs: Vec::new(),
        overlays: Vec::new(),
        bare_hash: BareRecipeHash(String::new()),
        depd_hash: DepdRecipeHash(String::new()),
    };
    let (bare, depd) = generate_recipe_hashes(&r, &encode);
    r.bare_hash = bare;
    r.depd_hash = depd;
    r
}

fn dep_on(r: &HydratedRecipeVersion) -> HydratedDepSpec {
    HydratedDepSpec {
        hash: r.depd_hash.clone(),
        from: None,
        to: Some("/deps".to_string()),
    }
}

#[test]
fn added_recipe_is_found_by_hash() {
    let mut store = RecipeStore::new(temp_db());
    let a = hydrated("a", Vec::new());
    assert_eq!(store.recipe(&a.depd_hash), None);
    store.add_recipe(a.clone());
    assert_eq!(store.recipe(&a.depd_hash), Some(a.clone()));
    assert_eq!(store.recipe(&DepdRecipeHash("other".to_string())), None);
}

#[test]
fn unknown_recipe_has_no_hashes() {
    let mut store = RecipeStore::new(temp_db());
    let h = DepdRecipeHash("nothing".to_string());
    assert_eq!(get_eq_depd_hash_from_depd_hash(&mut store, &h, &encode), Ok(None));
    assert_eq!(get_equiv_hash_from_depd_hash(&mut store, &h, &encode), Ok(None));
    assert_eq!(test_eq_hash_from_depd_hash(&mut store, &h, &encode), Ok(false));
}

#[test]
fn eq_depd_hash_without_deps_is_digest_of_recipe() {
    let mut store = RecipeStore::new(temp_db());
    let a = hydrated("a", Vec::new());
    let expected = equiv_hash_of_archive(&encode(&a)).0;
    let first = get_eq_depd_hash_from_recipe(&mut store, &a, &encode).unwrap().unwrap();
    assert_eq!(first.0, expected);
    let again = get_eq_depd_hash_from_recipe(&mut store, &a, &encode).unwrap().unwrap();
    assert_eq!(again, first);
}

#[test]
fn eq_depd_hash_names_deps_by_their_outputs() {
    let mut store = RecipeStore::new(temp_db());
    let a = hydrated("a", Vec::new());
    let b = hydrated("b", vec![dep_on(&a)]);
    store.add_recipe(a.clone());
    store.add_recipe(b.clone());
    assert_eq!(get_eq_depd_hash_from_recipe(&mut store, &b, &encode), Ok(None));
    let output = equiv_hash_of_archive(b"archive of a");
    assert_eq!(record_equiv(&mut store, &a.depd_hash, &output, &encode), Ok(()));
    let mut named = b.clone();
    named.deps[0].hash = DepdRecipeHash(output.0.clone());
    let expected = equiv_hash_of_archive(&encode(&named)).0;
    let got = get_eq_depd_hash_from_depd_hash(&mut store, &b.depd_hash, &encode)
        .unwrap()
        .unwrap();
    assert_eq!(got.0, expected);
}

#[test]
fn recorded_output_is_read_back() {
    let mut store = RecipeStore::new(temp_db());
    let a = hydrated("a", Vec::new());
    store.add_recipe(a.clone());
    assert_eq!(test_eq_hash_from_depd_hash(&mut store, &a.depd_hash, &encode), Ok(false));
    assert_eq!(get_equiv_hash_from_recipe(&mut store, &a, &encode), Ok(None));
    let output = equiv_hash_of_archive(b"built");
    record_equiv(&mut store, &a.depd_hash, &output, &encode).unwrap();
    assert_eq!(
        get_equiv_hash_from_depd_hash(&mut store, &a.depd_hash, &encode),
        Ok(Some(output.clone()))
    );
    assert_eq!(get_equiv_hash_from_recipe(&mut store, &a, &encode), Ok(Some(output.clone())));
    assert_eq!(test_eq_hash_from_depd_hash(&mut store, &a.depd_hash, &encode), Ok(true));
    let q = get_eq_depd_hash_from_recipe(&mut store, &a, &encode).unwrap().unwrap();
    assert_eq!(get_equiv_hash_from_eq_depd(&mut store, &q), Ok(Some(output)));
}

#[test]
fn output_read_from_database_directly() {
    let db = temp_db();
    let q = EqDepdRecipeHash("q".repeat(64));
    let absent = EqDepdRecipeHash("r".repeat(64));
    db.insert(q.0.as_bytes(), "e".repeat(64).as_bytes()).unwrap();
    let mut store = RecipeStore::new(db);
    assert_eq!(get_equiv_hash_from_eq_depd(&mut store, &absent), Ok(None));
    assert_eq!(
        get_equiv_hash_from_eq_depd(&mut store, &q),
        Ok(Some(EquivHash("e".repeat(64))))
    );
    assert_eq!(
        get_equiv_hash_from_eq_depd(&mut store, &q),
        Ok(Some(EquivHash("e".repeat(64))))
    );
}

#[test]
fn malformed_output_hash_is_an_error() {
    let a = hydrated("a", Vec::new());
    let q = EqDepdRecipeHash(equiv_hash_of_archive(&encode(&a)).0);
    let db = temp_db();
    db.insert(q.0.as_bytes(), vec![0xffu8, 0xfe]).unwrap();
    let mut store = RecipeStore::new(db);
    store.add_recipe(a.clone());
    assert_eq!(get_eq_depd_hash_from_recipe(&mut store, &a, &encode), Ok(Some(q.clone())));
    assert_eq!(get_equiv_hash_from_eq_depd(&mut store, &q), Err(StoreError::InvalidUtf8));
    assert_eq!(
        get_equiv_hash_from_depd_hash(&mut store, &a.depd_hash, &encode),
        Err(StoreError::InvalidUtf8)
    );
    assert_eq!(
        test_eq_hash_from_depd_hash(&mut store, &a.depd_hash, &encode),
        Err(StoreError::InvalidUtf8)
    );
}

#[test]
fn recording_for_unready_recipe_is_refused() {
    let mut store = RecipeStore::new(temp_db());
    let a = hydrated("a", Vec::new());
    let b = hydrated("b", vec![dep_on(&a)]);
    store.add_recipe(b.clone());
    let output = equiv_hash_of_archive(b"x");
    assert_eq!(
        record_equiv(&mut store, &b.depd_hash, &output, &encode),
        Err(StoreError::UnknownRecipe)
    );
    assert_eq!(
        record_equiv(&mut store, &DepdRecipeHash("none".to_string()), &output, &encode),
        Err(StoreError::UnknownRecipe)
    );
}

#[test]
fn ready_recipes_are_found_in_order() {
    let mut store = RecipeStore::new(temp_db());
    let a = hydrated("a", Vec::new());
    let b = hydrated("b", vec![dep_on(&a)]);
    let c = hydrated("c", vec![dep_on(&b)]);
    store.add_recipe(a.clone());
    store.add_recipe(b.clone());
    store.add_recipe(c.clone());
    let waiting = vec![c.clone(), b.clone(), a.clone()];
    assert_eq!(find_ready(&mut store, &waiting, &encode), Ok(Some(2)));
    assert_eq!(find_ready(&mut store, &vec![c.clone(), b.clone()], &encode), Ok(None));
    record_equiv(&mut store, &a.depd_hash, &equiv_hash_of_archive(b"a"), &encode).unwrap();
    assert_eq!(find_ready(&mut store, &vec![c.clone(), b.clone()], &encode), Ok(Some(1)));
    assert_eq!(find_ready(&mut store, &Vec::new(), &encode), Ok(None));
}

#[test]
fn builds_are_claimed_once() {
    let mut store = RecipeStore::new(temp_db());
    let mut claims = BuildClaims::new();
    let a = hydrated("a", Vec::new());
    store.add_recipe(a.clone());
    assert_eq!(should_build(&mut store, &mut claims, &a.depd_hash, &encode), Ok(true));
    assert_eq!(should_build(&mut store, &mut claims, &a.depd_hash, &encode), Ok(false));
    let b = hydrated("b", Vec::new());
    store.add_recipe(b.clone());
    record_equiv(&mut store, &b.depd_hash, &equiv_hash_of_archive(b"b"), &encode).unwrap();
    assert_eq!(should_build(&mut store, &mut claims, &b.depd_hash, &encode), Ok(false));
    assert!(claims.claim(&b.depd_hash));
    assert!(!claims.claim(&a.depd_hash));
}

#[test]
fn ready_work_is_taken_out() {
    let mut store = RecipeStore::new(temp_db());
    let mut pool = WorkPool::new();
    let a = hydrated("a", Vec::new());
    let b = hydrated("b", vec![dep_on(&a)]);
    store.add_recipe(a.clone());
    store.add_recipe(b.clone());
    pool.add(&b.depd_hash);
    assert_eq!(pool.take_ready(&mut store, &encode), Ok(None));
    pool.add(&a.depd_hash);
    pool.add(&a.depd_hash);
    assert_eq!(pool.take_ready(&mut store, &encode), Ok(Some(a.clone())));
    assert_eq!(pool.take_ready(&mut store, &encode), Ok(None));
    record_equiv(&mut store, &a.depd_hash, &equiv_hash_of_archive(b"a"), &encode).unwrap();
    assert_eq!(pool.take_ready(&mut store, &encode), Ok(Some(b.clone())));
    assert_eq!(pool.take_ready(&mut store, &encode), Ok(None));
    pool.add(&DepdRecipeHash("unknown".to_string()));
    assert_eq!(pool.take_ready(&mut store, &encode), Ok(None));
}

#[test]
fn outputs_only_in_database_are_found() {
    let a = hydrated("a", Vec::new());
    let b = hydrated("b", vec![dep_on(&a)]);
    let a_eq = equiv_hash_of_archive(&encode(&a)).0;
    let a_out = equiv_hash_of_archive(b"built a");
    let db = temp_db();
    db.insert(a_eq.as_bytes(), a_out.0.as_bytes()).unwrap();
    let mut store = RecipeStore::new(db);
    store.add_recipe(a.clone());
    store.add_recipe(b.clone());
    let mut named = b.clone();
    named.deps[0].hash = DepdRecipeHash(a_out.0.clone());
    let expected = equiv_hash_of_archive(&encode(&named)).0;
    let got = get_eq_depd_hash_from_recipe(&mut store, &b, &encode).unwrap().unwrap();
    assert_eq!(got.0, expected);
    assert_eq!(get_equiv_hash_from_depd_hash(&mut store, &a.depd_hash, &encode), Ok(Some(a_out)));
    assert_eq!(get_equiv_hash_from_recipe(&mut store, &b, &encode), Ok(None));
    assert_eq!(test_eq_hash_from_depd_hash(&mut store, &b.depd_hash, &encode), Ok(false));
}

#[test]
fn recorded_recipe_is_not_built_again() {
    let a = hydrated("a", Vec::new());
    let a_eq = equiv_hash_of_archive(&encode(&a)).0;
    let db = temp_db();
    db.insert(a_eq.as_bytes(), "f".repeat(64).as_bytes()).unwrap();
    let mut store = RecipeStore::new(db);
    store.add_recipe(a.clone());
    let mut claims = BuildClaims::new();
    assert_eq!(should_build(&mut store, &mut claims, &a.depd_hash, &encode), Ok(false));
}

#[test]
fn database_answers_are_taken() {
    let mut store = RecipeStore::new(temp_db());
    let q = EqDepdRecipeHash("q".repeat(64));
    assert_eq!(equiv_from_db_answer(&mut store, &q, None), Err(StoreError::Database));
    assert_eq!(equiv_from_db_answer(&mut store, &q, Some(None)), Ok(None));
    assert_eq!(
        equiv_from_db_answer(&mut store, &q, Some(Some(vec![0xffu8, 0xfe]))),
        Err(StoreError::InvalidUtf8)
    );
    // Nothing was cached so far: the database, which is empty, answers.
    assert_eq!(get_equiv_hash_from_eq_depd(&mut store, &q), Ok(None));
    assert_eq!(
        equiv_from_db_answer(&mut store, &q, Some(Some(b"e".repeat(64)))),
        Ok(Some(EquivHash("e".repeat(64))))
    );
    // Now the answer is cached.
    assert_eq!(
        get_equiv_hash_from_eq_depd(&mut store, &q),
        Ok(Some(EquivHash("e".repeat(64))))
    );
}

#[test]
fn output_test_agrees_with_output_read() {
    let mut store = RecipeStore::new(temp_db());
    let a = hydrated("a", Vec::new());
    let b = hydrated("b", vec![dep_on(&a)]);
    store.add_recipe(a.clone());
    store.add_recipe(b.clone());
    let unknown = DepdRecipeHash("u".repeat(64));
    for h in [&a.depd_hash, &b.depd_hash, &unknown] {
        let read = get_equiv_hash_from_depd_hash(&mut store, h, &encode).unwrap();
        assert_eq!(test_eq_hash_from_depd_hash(&mut store, h, &encode), Ok(read.is_some()));
    }
    record_equiv(&mut store, &a.depd_hash, &equiv_hash_of_archive(b"a built"), &encode).unwrap();
    for h in [&a.depd_hash, &b.depd_hash, &unknown] {
        let read = get_equiv_hash_from_depd_hash(&mut store, h, &encode).unwrap();
        assert_eq!(test_eq_hash_from_depd_hash(&mut store, h, &encode), Ok(read.is_some()));
    }
    assert_eq!(
        get_equiv_hash_from_recipe(&mut store, &a, &encode),
        Ok(Some(equiv_hash_of_archive(b"a built")))
    );
    assert_eq!(get_equiv_hash_from_recipe(&mut store, &b, &encode), Ok(None));
}

#[test]
fn refused_recording_writes_nothing() {
    let db = temp_db();
    let view = db.clone();
    let mut store = RecipeStore::new(db);
    let a = hydrated("a", Vec::new());
    let b = hydrated("b", vec![dep_on(&a)]);
    store.add_recipe(a.clone());
    store.add_recipe(b.clone());
    assert_eq!(
        record_equiv(&mut store, &b.depd_hash, &equiv_hash_of_archive(b"b"), &encode),
        Err(StoreError::UnknownRecipe)
    );
    assert_eq!(view.len(), 0);
    let output = equiv_hash_of_archive(b"a");
    record_equiv(&mut store, &a.depd_hash, &output, &encode).unwrap();
    let q = get_eq_depd_hash_from_recipe(&mut store, &a, &encode).unwrap().unwrap();
    assert_eq!(view.len(), 1);
    assert_eq!(view.get(q.0.as_bytes()).unwrap().unwrap().to_vec(), output.0.as_bytes().to_vec());
}

#[test]
fn recording_after_a_missing_output_is_read_back() {
    let mut store = RecipeStore::new(temp_db());
    let a = hydrated("a", Vec::new());
    let b = hydrated("b", vec![dep_on(&a)]);
    store.add_recipe(a.clone());
    store.add_recipe(b.clone());
    // The output of a is looked up, and found missing, before it is recorded.
    assert_eq!(get_equiv_hash_from_depd_hash(&mut store, &a.depd_hash, &encode), Ok(None));
    assert_eq!(get_eq_depd_hash_from_recipe(&mut store, &b, &encode), Ok(None));
    let output = equiv_hash_of_archive(b"a");
    record_equiv(&mut store, &a.depd_hash, &output, &encode).unwrap();
    assert_eq!(
        get_equiv_hash_from_depd_hash(&mut store, &a.depd_hash, &encode),
        Ok(Some(output.clone()))
    );
    let mut named = b.clone();
    named.deps[0].hash = DepdRecipeHash(output.0.clone());
    assert_eq!(
        get_eq_depd_hash_from_recipe(&mut store, &b, &encode),
        Ok(Some(EqDepdRecipeHash(equiv_hash_of_archive(&encode(&named)).0)))
    );
}
