//! Hydrating recipes: resolving what a recipe names into what its build needs,
//! and the order in which a set of recipes can be hydrated.

use vstd::hash_map::StringHashMap;
use vstd::prelude::*;
use vstd::utf8::{decode_utf8, valid_utf8};

use crate::duplicate::Duplicate;
use crate::foreign::string_from_utf8;
use crate::recipe::{
    digest_of_encoding, generate_recipe_hashes, without_deps, BareRecipeHash, DepSpecModel,
    DepdRecipeHash, HydratedDepSpec, HydratedDepSpecModel, HydratedRecipeModel,
    HydratedRecipeVersion, NamedRecipeVersion, Source, SourceContents, SourceMap, SourceContentsModel,
    SourceModel,
};
use crate::text::{
    split_char, split_once_char, split_once_spec, split_pieces, text_less, trim_char,
    trim_end_matches_str,
    trim_end_pattern, trim_matches_char, views,
};

verus! {

/// The contents of the sources that recipes name, by name.
pub struct SourceTable {
    map: StringHashMap<SourceContents>,
}

impl SourceTable {
    /// The contents recorded for the source `name`, if any.
    pub closed spec fn contents(&self, name: Seq<char>) -> Option<SourceContentsModel> {
        if self.map@.contains_key(name) {
            Some(self.map@[name].deep_view())
        } else {
            None
        }
    }

    /// A table naming no source.
    pub fn new() -> (res: Self)
        ensures
            forall|name: Seq<char>| #[trigger] res.contents(name) is None,
    {
        SourceTable { map: StringHashMap::new() }
    }

    /// Records `contents` for the source `name`, replacing what was recorded.
    pub fn insert(&mut self, name: String, contents: SourceContents)
        ensures
            final(self).contents(name@) == Some(contents.deep_view()),
            forall|other: Seq<char>|
                other != name@ ==> #[trigger] final(self).contents(other) == old(self).contents(
                    other,
                ),
    {
        self.map.insert(name, contents);
    }

    /// The contents recorded for the source `name`, if any.
    pub fn get(&self, name: &str) -> (res: Option<SourceContents>)
        ensures
            res.deep_view() == self.contents(name@),
    {
        match self.map.get(name) {
            Some(c) => Some(c.duplicate()),
            None => None,
        }
    }
}

/// Hydrated recipes, found by their name and version.
pub struct RecipeIndex {
    items: Vec<HydratedRecipeVersion>,
}

/// The recipe at position `i` of `items` is named `name` at `version`.
pub open spec fn keyed_at(items: Seq<HydratedRecipeVersion>, i: int, name: Seq<char>, version: Seq<char>) -> bool {
    0 <= i < items.len() && items[i].name@ == name && items[i].version@ == version
}

/// Position `i` is the first of `items` named `name` at `version`.
pub open spec fn first_keyed_at(
    items: Seq<HydratedRecipeVersion>,
    i: int,
    name: Seq<char>,
    version: Seq<char>,
) -> bool {
    keyed_at(items, i, name, version) && forall|j: int| 0 <= j < i ==> !keyed_at(items, j, name, version)
}

impl RecipeIndex {
    /// The hydrated recipes held, in the order they were first added.
    pub closed spec fn entries(&self) -> Seq<HydratedRecipeVersion> {
        self.items@
    }

    /// The hydrated recipe named `name` at `version`, if there is one.
    pub closed spec fn lookup(&self, name: Seq<char>, version: Seq<char>) -> Option<HydratedRecipeModel> {
        if exists|i: int| first_keyed_at(self.items@, i, name, version) {
            let i = choose|i: int| first_keyed_at(self.items@, i, name, version);
            Some(self.items@[i].deep_view())
        } else {
            None
        }
    }

    /// An index holding no recipe.
    pub fn new() -> (res: Self)
        ensures
            forall|name: Seq<char>, version: Seq<char>| #[trigger] res.lookup(name, version) is None,
    {
        RecipeIndex { items: Vec::new() }
    }

    /// The hydrated recipes, in the order they were first added.
    pub fn recipes(&self) -> (res: &Vec<HydratedRecipeVersion>)
        ensures
            res@ == self.entries(),
    {
        &self.items
    }

    fn position(&self, name: &str, version: &str) -> (res: Option<usize>)
        ensures
            match res {
                Some(i) => first_keyed_at(self.items@, i as int, name@, version@),
                None => forall|j: int| !keyed_at(self.items@, j, name@, version@),
            },
    {
        let n = self.items.len();
        for i in 0..n
            invariant
                n == self.items@.len(),
                forall|j: int| 0 <= j < i ==> !keyed_at(self.items@, j, name@, version@),
        {
            let item = &self.items[i];
            if item.name == name.to_owned() && item.version == version.to_owned() {
                return Some(i);
            }
        }
        None
    }

    proof fn lemma_lookup_first(&self, i: int, name: Seq<char>, version: Seq<char>)
        requires
            first_keyed_at(self.items@, i, name, version),
        ensures
            self.lookup(name, version) == Some(self.items@[i].deep_view()),
    {
        let k = choose|k: int| first_keyed_at(self.items@, k, name, version);
        if k < i {
            assert(!keyed_at(self.items@, k, name, version));
        } else if i < k {
            assert(!keyed_at(self.items@, i, name, version));
        }
    }

    /// The hydrated recipe named `name` at `version`, if there is one.
    pub fn get(&self, name: &str, version: &str) -> (res: Option<&HydratedRecipeVersion>)
        ensures
            match res {
                Some(r) => self.lookup(name@, version@) == Some(r.deep_view()) && r.name@
                    == name@ && r.version@ == version@,
                None => self.lookup(name@, version@) is None,
            },
    {
        match self.position(name, version) {
            Some(i) => {
                proof {
                    self.lemma_lookup_first(i as int, name@, version@);
                }
                Some(&self.items[i])
            },
            None => None,
        }
    }

    /// Adds `recipe` under its name and version, replacing the recipe held there.
    pub fn insert(&mut self, recipe: HydratedRecipeVersion)
        ensures
            final(self).lookup(recipe.name@, recipe.version@) == Some(recipe.deep_view()),
            forall|name: Seq<char>, version: Seq<char>|
                !(name == recipe.name@ && version == recipe.version@) ==> #[trigger] final(self).lookup(name, version)
                    == old(self).lookup(name, version),
    {
        let ghost key_name = recipe.name@;
        let ghost key_version = recipe.version@;
        let ghost before = self.items@;
        let pos = self.position(recipe.name.as_str(), recipe.version.as_str());
        match pos {
            Some(i) => {
                self.items.set(i, recipe);
            },
            None => {
                self.items.push(recipe);
            },
        }
        let ghost after = self.items@;
        let ghost k: int = match pos {
            Some(i) => i as int,
            None => before.len() as int,
        };
        proof {
            assert(after[k].name@ == key_name && after[k].version@ == key_version);
            assert forall|j: int| 0 <= j < after.len() && j != k implies after[j] == before[j] by {}
            assert forall|j: int| 0 <= j < k implies !keyed_at(after, j, key_name, key_version) by {
                assert(after[j] == before[j]);
                assert(!keyed_at(before, j, key_name, key_version));
            }
            assert(first_keyed_at(after, k, key_name, key_version));
            self.lemma_lookup_first(k, key_name, key_version);
            assert forall|name: Seq<char>, version: Seq<char>|
                !(name == key_name && version == key_version) implies #[trigger] self.lookup(
                name,
                version,
            ) == old(self).lookup(name, version) by {
                assert forall|j: int| #[trigger] keyed_at(after, j, name, version) <==> keyed_at(before, j, name, version) by {}
                if exists|i: int| first_keyed_at(before, i, name, version) {
                    let i = choose|i: int| first_keyed_at(before, i, name, version);
                    assert(first_keyed_at(after, i, name, version));
                    self.lemma_lookup_first(i, name, version);
                    old(self).lemma_lookup_first(i, name, version);
                } else {
                    assert forall|i: int| !first_keyed_at(after, i, name, version) by {
                        if first_keyed_at(after, i, name, version) {
                            assert(keyed_at(before, i, name, version));
                            assert forall|j: int| 0 <= j < i implies !keyed_at(before, j, name, version) by {
                                assert(!keyed_at(after, j, name, version));
                            }
                            assert(first_keyed_at(before, i, name, version));
                        }
                    }
                }
            }
        }
    }
}

/// The pair one line of an environment file gives: the text before its first
/// `=`, and the text after it without double quotes at either end.
pub open spec fn env_pair_of(line: Seq<char>) -> (Seq<char>, Seq<char>) {
    let parts = split_once_spec(line, '=').unwrap();
    (parts.0, trim_char(parts.1, '"'))
}

/// The pairs that the text of an environment file gives, one per line, when
/// every line holds an `=`.
pub open spec fn env_pairs(text: Seq<char>) -> Option<Seq<(Seq<char>, Seq<char>)>> {
    let lines = split_pieces(text, '\n');
    if forall|i: int| 0 <= i < lines.len() ==> (#[trigger] lines[i]).contains('=') {
        Some(lines.map_values(|l: Seq<char>| env_pair_of(l)))
    } else {
        None
    }
}

/// The environment that an environment file gives: nothing without a file,
/// its pairs when it is UTF-8 text whose every line holds an `=`.
pub open spec fn env_of_file(file: Option<Seq<u8>>) -> Option<Seq<(Seq<char>, Seq<char>)>> {
    match file {
        None => Some(Seq::empty()),
        Some(b) => if valid_utf8(b) {
            env_pairs(decode_utf8(b))
        } else {
            None
        },
    }
}

/// Reads the `KEY=VALUE` lines of an environment file's text.
pub fn parse_env(text: &str) -> (res: Option<Vec<(String, String)>>)
    ensures
        res.deep_view() == env_pairs(text@),
{
    let lines = split_char(text, '\n');
    let ghost ls = split_pieces(text@, '\n');
    let mut out: Vec<(String, String)> = Vec::new();
    let n = lines.len();
    for i in 0..n
        invariant
            n == ls.len(),
            ls == split_pieces(text@, '\n'),
            views(lines@) == ls,
            out@.len() == i,
            forall|j: int| 0 <= j < i ==> (#[trigger] ls[j]).contains('='),
            forall|j: int| 0 <= j < i ==> (#[trigger] out@[j]).deep_view() == env_pair_of(ls[j]),
    {
        assert(views(lines@)[i as int] == lines@[i as int]@);
        match split_once_char(lines[i].as_str(), '=') {
            None => {
                assert(!ls[i as int].contains('='));
                assert(!(forall|j: int| 0 <= j < ls.len() ==> (#[trigger] ls[j]).contains('=')));
                assert(env_pairs(text@) is None);
                return None;
            },
            Some((key, value)) => {
                let value = trim_matches_char(value.as_str(), '"');
                out.push((key, value));
            },
        }
    }
    assert(out.deep_view() =~= ls.map_values(|l: Seq<char>| env_pair_of(l)));
    Some(out)
}

/// Reads an environment file, given as its bytes when there is one.
pub fn read_env_file(file: Option<Vec<u8>>) -> (res: Option<Vec<(String, String)>>)
    ensures
        res.deep_view() == env_of_file(file.deep_view()),
{
    match file {
        None => {
            let out: Vec<(String, String)> = Vec::new();
            assert(out.deep_view() =~= Seq::<(Seq<char>, Seq<char>)>::empty());
            Some(out)
        },
        Some(bytes) => {
            let ghost b = bytes@;
            assert(bytes.deep_view() =~= b);
            match string_from_utf8(bytes) {
                None => None,
                Some(text) => parse_env(text.as_str()),
            }
        },
    }
}

/// The sources a recipe lists, each with the contents the table records for
/// its name, when the table records every one.
pub open spec fn sources_of(
    listed: Option<Seq<(Seq<char>, SourceModel)>>,
    table: SourceTable,
) -> Option<Seq<(SourceModel, SourceContentsModel)>> {
    match listed {
        None => Some(Seq::empty()),
        Some(l) => if forall|i: int| 0 <= i < l.len() ==> (#[trigger] table.contents(l[i].0)) is Some {
            Some(
                l.map_values(
                    |p: (Seq<char>, SourceModel)| (p.1, table.contents(p.0).unwrap()),
                ),
            )
        } else {
            None
        },
    }
}

/// The dependencies a recipe lists, each named by the hash of the hydrated
/// recipe with its name and version, when the index holds every one.
pub open spec fn dep_hashes_of(
    deps: Option<Seq<DepSpecModel>>,
    index: RecipeIndex,
) -> Option<Seq<HydratedDepSpecModel>> {
    match deps {
        None => Some(Seq::empty()),
        Some(d) => if forall|i: int|
            0 <= i < d.len() ==> (#[trigger] index.lookup(d[i].name, d[i].version)) is Some {
            Some(
                d.map_values(
                    |x: DepSpecModel|
                        HydratedDepSpecModel {
                            hash: index.lookup(x.name, x.version).unwrap().depd_hash,
                            from: x.from,
                            to: x.to,
                        },
                ),
            )
        } else {
            None
        },
    }
}

/// The directories a recipe asks for: none when it names none.
pub open spec fn mkdirs_of(mkdirs: Option<Seq<Seq<char>>>) -> Seq<Seq<char>> {
    match mkdirs {
        Some(m) => m,
        None => Seq::empty(),
    }
}

fn resolve_sources(listed: &Option<SourceMap>, table: &SourceTable) -> (res: Option<
    Vec<(Source, SourceContents)>,
>)
    ensures
        res.deep_view() == sources_of(listed.deep_view(), *table),
{
    match listed {
        None => {
            let out: Vec<(Source, SourceContents)> = Vec::new();
            assert(out.deep_view() =~= Seq::<(SourceModel, SourceContentsModel)>::empty());
            Some(out)
        },
        Some(m) => {
            let l = m.entries();
            let ghost lv = l.deep_view();
            let mut out: Vec<(Source, SourceContents)> = Vec::new();
            let n = l.len();
            for i in 0..n
                invariant
                    n == l@.len(),
                    lv == l.deep_view(),
                    listed.deep_view() == Some(lv),
                    out@.len() == i,
                    forall|j: int| 0 <= j < i ==> (#[trigger] table.contents(lv[j].0)) is Some,
                    forall|j: int|
                        0 <= j < i ==> (#[trigger] out@[j]).deep_view() == (
                            lv[j].1,
                            table.contents(lv[j].0).unwrap(),
                        ),
            {
                assert(lv[i as int] == l@[i as int].deep_view());
                match table.get(l[i].0.as_str()) {
                    None => {
                        assert(table.contents(lv[i as int].0) is None);
                        assert(sources_of(listed.deep_view(), *table) is None);
                        return None;
                    },
                    Some(c) => {
                        out.push((l[i].1.duplicate(), c));
                    },
                }
            }
            assert(out.deep_view() =~= lv.map_values(
                |p: (Seq<char>, SourceModel)| (p.1, table.contents(p.0).unwrap()),
            ));
            Some(out)
        },
    }
}

fn resolve_dep_hashes(deps: &Option<Vec<crate::recipe::DepSpec>>, index: &RecipeIndex) -> (res:
    Option<Vec<HydratedDepSpec>>)
    ensures
        res.deep_view() == dep_hashes_of(deps.deep_view(), *index),
{
    match deps {
        None => {
            let out: Vec<HydratedDepSpec> = Vec::new();
            assert(out.deep_view() =~= Seq::<HydratedDepSpecModel>::empty());
            Some(out)
        },
        Some(d) => {
            let ghost dv = d.deep_view();
            let mut out: Vec<HydratedDepSpec> = Vec::new();
            let n = d.len();
            for i in 0..n
                invariant
                    n == d@.len(),
                    dv == d.deep_view(),
                    deps.deep_view() == Some(dv),
                    out@.len() == i,
                    forall|j: int|
                        0 <= j < i ==> (#[trigger] index.lookup(dv[j].name, dv[j].version)) is Some,
                    forall|j: int|
                        0 <= j < i ==> (#[trigger] out@[j]).deep_view() == (HydratedDepSpecModel {
                            hash: index.lookup(dv[j].name, dv[j].version).unwrap().depd_hash,
                            from: dv[j].from,
                            to: dv[j].to,
                        }),
            {
                assert(dv[i as int] == d@[i as int].deep_view());
                match index.get(d[i].name.as_str(), d[i].version.as_str()) {
                    None => {
                        assert(index.lookup(dv[i as int].name, dv[i as int].version) is None);
                        assert(dep_hashes_of(deps.deep_view(), *index) is None);
                        return None;
                    },
                    Some(found) => {
                        let hash = crate::recipe::get_depd_hash_from_recipe(found);
                        out.push(
                            HydratedDepSpec {
                                hash,
                                from: d[i].from.duplicate(),
                                to: d[i].to.duplicate(),
                            },
                        );
                    },
                }
            }
            assert(out.deep_view() =~= dv.map_values(
                |x: DepSpecModel|
                    HydratedDepSpecModel {
                        hash: index.lookup(x.name, x.version).unwrap().depd_hash,
                        from: x.from,
                        to: x.to,
                    },
            ));
            Some(out)
        },
    }
}

/// `m` with both of its hashes empty.
pub open spec fn unhashed(m: HydratedRecipeModel) -> HydratedRecipeModel {
    HydratedRecipeModel { bare_hash: Seq::empty(), depd_hash: Seq::empty(), ..m }
}

/// Hydrates `recipe`: each named source with its contents from `sources`,
/// each dependency by the hash of the hydrated recipe it names in `recipes`,
/// the environment from `env_file` (the bytes of the recipe's environment
/// file, if it has one) and the given overlay files; then both of its hashes,
/// through the encoding `encode`. Every source and dependency must be known,
/// and the environment file must be UTF-8 text whose every line holds an
/// `=`.
pub fn hydrate_recipe<F: Fn(&HydratedRecipeVersion) -> Vec<u8>>(
    recipe: NamedRecipeVersion,
    recipes: &RecipeIndex,
    sources: &SourceTable,
    overlays: Vec<(String, Vec<u8>)>,
    env_file: Option<Vec<u8>>,
    encode: &F,
) -> (res: Option<HydratedRecipeVersion>)
    requires
        forall|r: &HydratedRecipeVersion| encode.requires((r,)),
        sources_of(recipe.source.deep_view(), *sources) is Some,
        dep_hashes_of(recipe.deps.deep_view(), *recipes) is Some,
        env_of_file(env_file.deep_view()) is Some,
    ensures
        res is Some,
        res matches Some(r) ==> {
            &&& r.name == recipe.name
            &&& r.version == recipe.version
            &&& r.deep_view().source == sources_of(recipe.source.deep_view(), *sources).unwrap()
            &&& r.deep_view().deps == dep_hashes_of(recipe.deps.deep_view(), *recipes).unwrap()
            &&& r.deep_view().mkdirs == mkdirs_of(recipe.mkdirs.deep_view())
            &&& r.build == recipe.build
            &&& r.artefacts == recipe.artefacts
            &&& r.deep_view().envs == env_of_file(env_file.deep_view()).unwrap()
            &&& r.overlays == overlays
            &&& digest_of_encoding(
                *encode,
                without_deps(unhashed(r.deep_view())),
                r.bare_hash.deep_view(),
            )
            &&& digest_of_encoding(*encode, unhashed(r.deep_view()), r.depd_hash.deep_view())
        },
{
    let source = resolve_sources(&recipe.source, sources);
    let envs = read_env_file(env_file);
    let deps = resolve_dep_hashes(&recipe.deps, recipes);
    let (source, envs, deps) = match (source, envs, deps) {
        (Some(s), Some(e), Some(d)) => (s, e, d),
        _ => {
            assert(false);
            return None;
        },
    };
    let mkdirs = match recipe.mkdirs {
        Some(m) => m,
        None => Vec::new(),
    };
    assert(mkdirs.deep_view() =~= mkdirs_of(recipe.mkdirs.deep_view()));
    let mut hydrated = HydratedRecipeVersion {
        name: recipe.name,
        version: recipe.version,
        source,
        deps,
        mkdirs,
        build: recipe.build,
        artefacts: recipe.artefacts,
        envs,
        overlays,
        bare_hash: BareRecipeHash(String::new()),
        depd_hash: DepdRecipeHash(String::new()),
    };
    let ghost first = hydrated.deep_view();
    let (bare_hash, depd_hash) = generate_recipe_hashes(&hydrated, encode);
    hydrated.bare_hash = bare_hash;
    hydrated.depd_hash = depd_hash;
    assert(unhashed(hydrated.deep_view()) =~= first);
    Some(hydrated)
}

/// The version a recipe file holds: its file name without the `.yaml`
/// endings, removed one after another.
pub fn version_of_file_name(file_name: &str) -> (res: String)
    ensures
        res@ == trim_end_pattern(file_name@, ".yaml"@),
{
    proof {
        reveal_strlit(".yaml");
    }
    trim_end_matches_str(file_name, ".yaml")
}

/// What comes before the last `/` of the path text `p`, its directory, if
/// it has a `/`.
pub open spec fn parent_text(p: Seq<char>) -> Option<Seq<char>>
    decreases p.len(),
{
    if p.len() == 0 {
        None
    } else if p.last() == '/' {
        Some(p.drop_last())
    } else {
        parent_text(p.drop_last())
    }
}

/// The name of the recipe whose file is at the path text `p`, a file under
/// the directory `recipes` written with single slashes: the directories
/// between `recipes` and the file.
pub open spec fn recipe_name_of(p: Seq<char>) -> Option<Seq<char>> {
    match parent_text(p) {
        None => None,
        Some(d) => if d == "recipes"@ {
            Some(Seq::empty())
        } else if d.len() > 8 && d.take(8) == "recipes/"@ {
            Some(d.skip(8))
        } else {
            None
        },
    }
}

proof fn lemma_parent_text_at(p: Seq<char>, i: int)
    requires
        0 <= i < p.len(),
        p[i] == '/',
        forall|j: int| i < j < p.len() ==> p[j] != '/',
    ensures
        parent_text(p) == Some(p.take(i)),
    decreases p.len(),
{
    if i < p.len() - 1 {
        lemma_parent_text_at(p.drop_last(), i);
        assert(p.drop_last().take(i) =~= p.take(i));
    } else {
        assert(p.drop_last() =~= p.take(i));
    }
}

proof fn lemma_no_parent(p: Seq<char>)
    requires
        forall|j: int| 0 <= j < p.len() ==> p[j] != '/',
    ensures
        parent_text(p) is None,
    decreases p.len(),
{
    if p.len() > 0 {
        lemma_no_parent(p.drop_last());
    }
}

/// The name of the recipe whose file is at `path`, under `recipes`: the
/// directories between `recipes` and the file; `None` when the file is not
/// under `recipes`.
pub fn recipe_name_of_path(path: &str) -> (res: Option<String>)
    ensures
        match res {
            Some(n) => recipe_name_of(path@) == Some(n@),
            None => recipe_name_of(path@) is None,
        },
{
    proof {
        reveal_strlit("recipes");
        reveal_strlit("recipes/");
    }
    let n = path.unicode_len();
    let mut i = n;
    while i > 0 && path.get_char(i - 1) != '/'
        invariant
            n == path@.len(),
            i <= n,
            forall|j: int| i <= j < n ==> path@[j] != '/',
        decreases i,
    {
        i = i - 1;
    }
    if i == 0 {
        proof {
            lemma_no_parent(path@);
        }
        return None;
    }
    let cut = i - 1;
    proof {
        lemma_parent_text_at(path@, cut as int);
    }
    let dir = path.substring_char(0, cut).to_owned();
    assert(dir@ =~= path@.take(cut as int));
    let ghost dir_chars = dir@;
    if cut == 7 {
        if dir == "recipes".to_owned() {
            return Some(String::new());
        }
        return None;
    }
    if cut > 8 {
        let head = dir.as_str().substring_char(0, 8).to_owned();
        assert(head@ =~= dir_chars.take(8));
        if head == "recipes/".to_owned() {
            let rest = dir.as_str().substring_char(8, cut).to_owned();
            assert(rest@ =~= dir_chars.skip(8));
            return Some(rest);
        }
    }
    proof {
        if dir_chars == "recipes"@ {
            assert(dir_chars.len() == 7);
        }
    }
    None
}

/// Some position before `p` of `ord` holds a recipe named `key`.
pub open spec fn placed_before(
    keys: Seq<(Seq<char>, Seq<char>)>,
    ord: Seq<int>,
    p: int,
    key: (Seq<char>, Seq<char>),
) -> bool {
    exists|q: int| 0 <= q < p && #[trigger] keys[ord[q]] == key
}

/// `ord` lists every one of the recipes named by `keys` exactly once, each
/// after all the recipes that its dependencies `deps` name.
pub open spec fn is_hydration_order(
    keys: Seq<(Seq<char>, Seq<char>)>,
    deps: Seq<Seq<(Seq<char>, Seq<char>)>>,
    ord: Seq<int>,
) -> bool {
    &&& ord.len() == keys.len()
    &&& forall|p: int| 0 <= p < ord.len() ==> 0 <= #[trigger] ord[p] < keys.len()
    &&& ord.no_duplicates()
    &&& forall|i: int| 0 <= i < keys.len() ==> #[trigger] ord.contains(i)
    &&& forall|p: int, d: int|
        #![trigger deps[ord[p]][d]]
        0 <= p < ord.len() && 0 <= d < deps[ord[p]].len() ==> placed_before(
            keys,
            ord,
            p,
            deps[ord[p]][d],
        )
}

/// Some recipe named `key` is marked in `done`.
pub open spec fn marked_key(
    keys: Seq<(Seq<char>, Seq<char>)>,
    done: Seq<bool>,
    key: (Seq<char>, Seq<char>),
) -> bool {
    exists|j: int| 0 <= j < keys.len() && done[j] && #[trigger] keys[j] == key
}

/// Every dependency in `needs` names a recipe of `keys` marked in `done`.
pub open spec fn needs_met(
    keys: Seq<(Seq<char>, Seq<char>)>,
    needs: Seq<(Seq<char>, Seq<char>)>,
    done: Seq<bool>,
) -> bool {
    forall|d: int| 0 <= d < needs.len() ==> #[trigger] marked_key(keys, done, needs[d])
}

/// The number of unmarked entries.
pub open spec fn count_false(s: Seq<bool>) -> nat
    decreases s.len(),
{
    if s.len() == 0 {
        0
    } else {
        count_false(s.drop_last()) + if s.last() {
            0nat
        } else {
            1nat
        }
    }
}

proof fn lemma_count_false_mark(s: Seq<bool>, i: int)
    requires
        0 <= i < s.len(),
        !s[i],
    ensures
        count_false(s.update(i, true)) + 1 == count_false(s),
    decreases s.len(),
{
    if i < s.len() - 1 {
        lemma_count_false_mark(s.drop_last(), i);
        assert(s.update(i, true).drop_last() =~= s.drop_last().update(i, true));
    } else {
        assert(s.update(i, true).drop_last() =~= s.drop_last());
    }
}

proof fn lemma_count_false_none_marked(s: Seq<bool>)
    requires
        forall|j: int| 0 <= j < s.len() ==> !s[j],
    ensures
        count_false(s) == s.len(),
    decreases s.len(),
{
    if s.len() > 0 {
        lemma_count_false_none_marked(s.drop_last());
    }
}

proof fn lemma_count_false_some_unmarked(s: Seq<bool>)
    requires
        count_false(s) > 0,
    ensures
        exists|i: int| 0 <= i < s.len() && !s[i],
    decreases s.len(),
{
    if !s.last() {
        assert(!s[s.len() - 1]);
    } else {
        lemma_count_false_some_unmarked(s.drop_last());
        let i = choose|i: int| 0 <= i < s.drop_last().len() && !s.drop_last()[i];
        assert(!s[i]);
    }
}

proof fn lemma_zero_false_all_marked(s: Seq<bool>, k: int)
    requires
        count_false(s) == 0,
        0 <= k < s.len(),
    ensures
        s[k],
    decreases s.len(),
{
    if k < s.len() - 1 {
        lemma_zero_false_all_marked(s.drop_last(), k);
    }
}

/// When no unmarked recipe has its dependencies met by the marked ones, the
/// first `p` positions of any hydration order hold only marked recipes.
proof fn lemma_stuck_prefix(
    keys: Seq<(Seq<char>, Seq<char>)>,
    deps: Seq<Seq<(Seq<char>, Seq<char>)>>,
    done: Seq<bool>,
    ord: Seq<int>,
    p: int,
)
    requires
        deps.len() == keys.len(),
        done.len() == keys.len(),
        is_hydration_order(keys, deps, ord),
        forall|i: int| 0 <= i < keys.len() && !done[i] ==> !#[trigger] needs_met(keys, deps[i], done),
        0 <= p <= ord.len(),
    ensures
        forall|q: int| 0 <= q < p ==> done[#[trigger] ord[q]],
    decreases p,
{
    if p > 0 {
        lemma_stuck_prefix(keys, deps, done, ord, p - 1);
        let i = ord[p - 1];
        assert(0 <= i < keys.len());
        if !done[i] {
            assert(!needs_met(keys, deps[i], done));
            let d = choose|d: int| 0 <= d < deps[i].len() && !#[trigger] marked_key(keys, done, deps[i][d]);
            let dep = deps[ord[p - 1]][d];
            assert(placed_before(keys, ord, p - 1, dep));
            let q = choose|q: int| 0 <= q < p - 1 && #[trigger] keys[ord[q]] == dep;
            assert(done[ord[q]]);
            assert(0 <= ord[q] < keys.len());
            assert(marked_key(keys, done, deps[i][d]));
        }
    }
}

fn find_marked(keys: &Vec<(String, String)>, done: &Vec<bool>, key: &(String, String)) -> (res: bool)
    requires
        done@.len() == keys@.len(),
    ensures
        res == marked_key(keys.deep_view(), done@, key.deep_view()),
{
    let ghost kv = keys.deep_view();
    let n = keys.len();
    for j in 0..n
        invariant
            n == keys@.len(),
            done@.len() == n,
            kv == keys.deep_view(),
            forall|k: int| 0 <= k < j ==> !(done@[k] && #[trigger] kv[k] == key.deep_view()),
    {
        assert(kv[j as int] == keys@[j as int].deep_view());
        if done[j] && keys[j].0 == key.0 && keys[j].1 == key.1 {
            assert(kv[j as int] == key.deep_view());
            return true;
        }
    }
    false
}

fn needs_met_exec(keys: &Vec<(String, String)>, needs: &Vec<(String, String)>, done: &Vec<bool>) -> (res: bool)
    requires
        done@.len() == keys@.len(),
    ensures
        res == needs_met(keys.deep_view(), needs.deep_view(), done@),
{
    let ghost nv = needs.deep_view();
    let m = needs.len();
    for d in 0..m
        invariant
            m == needs@.len(),
            done@.len() == keys@.len(),
            nv == needs.deep_view(),
            forall|e: int| 0 <= e < d ==> #[trigger] marked_key(keys.deep_view(), done@, nv[e]),
    {
        assert(nv[d as int] == needs@[d as int].deep_view());
        if !find_marked(keys, done, &needs[d]) {
            return false;
        }
    }
    true
}

/// Every recipe of `order` comes after the recipes its dependencies name.
pub open spec fn respects_deps(
    keys: Seq<(Seq<char>, Seq<char>)>,
    deps: Seq<Seq<(Seq<char>, Seq<char>)>>,
    order: Seq<int>,
) -> bool {
    forall|p: int, d: int|
        #![trigger deps[order[p]][d]]
        0 <= p < order.len() && 0 <= d < deps[order[p]].len() ==> placed_before(
            keys,
            order,
            p,
            deps[order[p]][d],
        )
}

/// The positions of `order`, as integers.
pub open spec fn positions(order: Seq<usize>) -> Seq<int> {
    order.map_values(|x: usize| x as int)
}

/// The state of a hydration plan: the marked recipes are exactly those of
/// `order`, listed once each, after their dependencies.
pub open spec fn plan_state(
    keys: Seq<(Seq<char>, Seq<char>)>,
    deps: Seq<Seq<(Seq<char>, Seq<char>)>>,
    done: Seq<bool>,
    order: Seq<int>,
) -> bool {
    &&& done.len() == keys.len()
    &&& deps.len() == keys.len()
    &&& count_false(done) + order.len() == keys.len()
    &&& forall|p: int| 0 <= p < order.len() ==> 0 <= #[trigger] order[p] < keys.len()
    &&& order.no_duplicates()
    &&& forall|i: int| 0 <= i < keys.len() ==> (done[i] <==> #[trigger] order.contains(i))
    &&& respects_deps(keys, deps, order)
}

proof fn lemma_plan_step(
    keys: Seq<(Seq<char>, Seq<char>)>,
    deps: Seq<Seq<(Seq<char>, Seq<char>)>>,
    done: Seq<bool>,
    order: Seq<int>,
    i: int,
)
    requires
        plan_state(keys, deps, done, order),
        0 <= i < keys.len(),
        !done[i],
        needs_met(keys, deps[i], done),
    ensures
        plan_state(keys, deps, done.update(i, true), order.push(i)),
{
    lemma_count_false_mark(done, i);
    let done2 = done.update(i, true);
    let order2 = order.push(i);
    assert(!order.contains(i));
    assert forall|k: int| 0 <= k < keys.len() implies (done2[k] <==> #[trigger] order2.contains(k)) by {
        if k == i {
            assert(order2[order.len() as int] == k);
        } else {
            if order.contains(k) {
                let p = choose|p: int| 0 <= p < order.len() && order[p] == k;
                assert(order2[p] == k);
            }
            if order2.contains(k) {
                let p = choose|p: int| 0 <= p < order2.len() && order2[p] == k;
                assert(p < order.len());
                assert(order[p] == k);
            }
        }
    }
    assert forall|p: int, d: int|
        #![trigger deps[order2[p]][d]]
        0 <= p < order2.len() && 0 <= d < deps[order2[p]].len() implies placed_before(
            keys,
            order2,
            p,
            deps[order2[p]][d],
        ) by {
        if p == order.len() {
            let dep = deps[i][d];
            assert(marked_key(keys, done, dep));
            let j = choose|j: int| 0 <= j < keys.len() && done[j] && #[trigger] keys[j] == dep;
            assert(order.contains(j));
            let q = choose|q: int| 0 <= q < order.len() && order[q] == j;
            assert(order2[q] == j);
            assert(keys[order2[q]] == dep);
        } else {
            assert(order2[p] == order[p]);
            assert(placed_before(keys, order, p, deps[order[p]][d]));
            let q = choose|q: int| 0 <= q < p && #[trigger] keys[order[q]] == deps[order[p]][d];
            assert(order2[q] == order[q]);
            assert(keys[order2[q]] == deps[order2[p]][d]);
        }
    }
}

/// The order in which the recipes named by `keys` can be hydrated, given the
/// recipes `deps` that each one's dependencies name: passes over the recipes
/// in order, each taking every recipe whose dependencies are already taken.
/// Nothing when no order hydrates every recipe after its dependencies: when a
/// dependency names no recipe of `keys`, or dependencies form a cycle.
pub fn plan_hydration(keys: &Vec<(String, String)>, deps: &Vec<Vec<(String, String)>>) -> (res:
    Option<Vec<usize>>)
    requires
        keys@.len() == deps@.len(),
    ensures
        res matches Some(ord) ==> is_hydration_order(
            keys.deep_view(),
            deps.deep_view(),
            positions(ord@),
        ),
        res is None ==> forall|ord: Seq<int>|
            !#[trigger] is_hydration_order(keys.deep_view(), deps.deep_view(), ord),
{
    let ghost kv = keys.deep_view();
    let ghost dv = deps.deep_view();
    let n = keys.len();
    let mut done: Vec<bool> = Vec::new();
    for i in 0..n
        invariant
            done@.len() == i,
            forall|j: int| 0 <= j < i ==> !done@[j],
    {
        done.push(false);
    }
    let mut order: Vec<usize> = Vec::new();
    proof {
        lemma_count_false_none_marked(done@);
        assert(positions(order@) =~= Seq::<int>::empty());
    }
    loop
        invariant
            n == keys@.len(),
            kv == keys.deep_view(),
            dv == deps.deep_view(),
            plan_state(kv, dv, done@, positions(order@)),
        decreases n - order@.len(),
    {
        let ghost pass_start = order@.len();
        let mut progress = false;
        for i in 0..n
            invariant
                n == keys@.len(),
                kv == keys.deep_view(),
                dv == deps.deep_view(),
                plan_state(kv, dv, done@, positions(order@)),
                progress ==> order@.len() > pass_start,
                !progress ==> order@.len() == pass_start,
                !progress ==> forall|k: int| 0 <= k < i && !done@[k] ==> !#[trigger] needs_met(kv, dv[k], done@),
        {
            assert(dv[i as int] == deps@[i as int].deep_view());
            if !done[i] && needs_met_exec(keys, &deps[i], &done) {
                proof {
                    lemma_plan_step(kv, dv, done@, positions(order@), i as int);
                }
                let ghost prev = order@;
                done.set(i, true);
                order.push(i);
                assert(positions(order@) =~= positions(prev).push(i as int));
                progress = true;
            }
        }
        if order.len() == n {
            proof {
                let ord = positions(order@);
                assert forall|k: int| 0 <= k < n implies #[trigger] ord.contains(k) by {
                    lemma_zero_false_all_marked(done@, k);
                }
            }
            return Some(order);
        }
        if !progress {
            proof {
                lemma_count_false_some_unmarked(done@);
                let u = choose|u: int| 0 <= u < done@.len() && !done@[u];
                assert forall|ord: Seq<int>| !#[trigger] is_hydration_order(kv, dv, ord) by {
                    if is_hydration_order(kv, dv, ord) {
                        lemma_stuck_prefix(kv, dv, done@, ord, ord.len() as int);
                        assert(ord.contains(u));
                        let p = choose|p: int| 0 <= p < ord.len() && ord[p] == u;
                        assert(done@[ord[p]]);
                    }
                }
            }
            return None;
        }
    }
}

/// Hydrating recipes in a hydration order always finds their dependencies:
/// once the recipes at the first `p` positions of the order are in the
/// index under their names and versions, every dependency of the recipe at
/// position `p` is found there.
pub proof fn law_order_finds_deps(
    keys: Seq<(Seq<char>, Seq<char>)>,
    deps: Seq<Seq<(Seq<char>, Seq<char>)>>,
    ord: Seq<int>,
    index: RecipeIndex,
    p: int,
)
    requires
        is_hydration_order(keys, deps, ord),
        0 <= p < ord.len(),
        forall|q: int|
            0 <= q < p ==> (#[trigger] index.lookup(keys[ord[q]].0, keys[ord[q]].1)) is Some,
    ensures
        forall|d: int|
            0 <= d < deps[ord[p]].len() ==> (#[trigger] index.lookup(
                deps[ord[p]][d].0,
                deps[ord[p]][d].1,
            )) is Some,
{
    assert forall|d: int| 0 <= d < deps[ord[p]].len() implies (#[trigger] index.lookup(
        deps[ord[p]][d].0,
        deps[ord[p]][d].1,
    )) is Some by {
        assert(placed_before(keys, ord, p, deps[ord[p]][d]));
        let q = choose|q: int| 0 <= q < p && #[trigger] keys[ord[q]] == deps[ord[p]][d];
        assert(index.lookup(keys[ord[q]].0, keys[ord[q]].1) is Some);
    }
}

} // verus!
