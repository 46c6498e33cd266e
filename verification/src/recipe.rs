//! Recipes: what a package is built from, how, and the hashes that name it.

use vstd::prelude::*;

use crate::duplicate::Duplicate;
use crate::foreign::{
    is_lower_hex_digit, recipe_map_contents, recipe_map_get, recipe_map_insert, recipe_map_new,
    sha256_digest, sha256_hex, sled_contents, sled_get, sled_insert, string_from_utf8,
    string_map_contents, string_map_get, string_map_insert, string_map_new, RecipeMap, StringMap,
};
use vstd::utf8::{decode_utf8, encode_utf8, valid_utf8};
use crate::ordered::{lists_in_order, named_map_of, names_in_order, ordered_by_name};
use crate::text::{split_char, split_once_char, split_once_spec, split_pieces, views};

verus! {

/// The hash of a hydrated recipe with its dependencies left out.
#[derive(Debug, Clone, PartialEq, Eq, PartialOrd, Ord, Hash)]
pub struct BareRecipeHash(pub String);

/// The hash of a hydrated recipe, dependencies included.
#[derive(Debug, Clone, PartialEq, Eq, PartialOrd, Ord, Hash)]
pub struct DepdRecipeHash(pub String);

/// The hash of a hydrated recipe whose dependencies are named by the hashes of
/// their build outputs.
#[derive(Debug, Clone, PartialEq, Eq, PartialOrd, Ord, Hash)]
pub struct EqDepdRecipeHash(pub String);

/// The hash of a build output.
#[derive(Debug, Clone, PartialEq, Eq, PartialOrd, Ord, Hash)]
pub struct EquivHash(pub String);

impl DeepView for BareRecipeHash {
    type V = Seq<char>;

    open spec fn deep_view(&self) -> Seq<char> {
        self.0@
    }
}

impl DeepView for DepdRecipeHash {
    type V = Seq<char>;

    open spec fn deep_view(&self) -> Seq<char> {
        self.0@
    }
}

impl DeepView for EqDepdRecipeHash {
    type V = Seq<char>;

    open spec fn deep_view(&self) -> Seq<char> {
        self.0@
    }
}

impl DeepView for EquivHash {
    type V = Seq<char>;

    open spec fn deep_view(&self) -> Seq<char> {
        self.0@
    }
}

impl Duplicate for BareRecipeHash {
    fn duplicate(&self) -> (r: Self) {
        BareRecipeHash(self.0.clone())
    }
}

impl Duplicate for DepdRecipeHash {
    fn duplicate(&self) -> (r: Self) {
        DepdRecipeHash(self.0.clone())
    }
}

/// How one source archive is unpacked.
#[derive(Debug, Clone, PartialEq, Eq, PartialOrd, Ord, Hash)]
pub struct Source {
    pub extract: Option<String>,
    pub noextract: Option<String>,
    pub copy: Option<Vec<String>>,
    pub chmod: Option<String>,
}

#[verifier::ext_equal]
pub struct SourceModel {
    pub extract: Option<Seq<char>>,
    pub noextract: Option<Seq<char>>,
    pub copy: Option<Seq<Seq<char>>>,
    pub chmod: Option<Seq<char>>,
}

impl DeepView for Source {
    type V = SourceModel;

    open spec fn deep_view(&self) -> SourceModel {
        SourceModel {
            extract: self.extract.deep_view(),
            noextract: self.noextract.deep_view(),
            copy: self.copy.deep_view(),
            chmod: self.chmod.deep_view(),
        }
    }
}

impl Duplicate for Source {
    fn duplicate(&self) -> (r: Self) {
        Source {
            extract: self.extract.duplicate(),
            noextract: self.noextract.duplicate(),
            copy: self.copy.duplicate(),
            chmod: self.chmod.duplicate(),
        }
    }
}

/// Where a source archive is fetched from and the SHA-256 it must have.
#[derive(Debug, Clone, PartialEq, Eq, PartialOrd, Ord, Hash)]
pub struct SourceContents {
    pub url: String,
    pub sha: String,
}

#[verifier::ext_equal]
pub struct SourceContentsModel {
    pub url: Seq<char>,
    pub sha: Seq<char>,
}

impl DeepView for SourceContents {
    type V = SourceContentsModel;

    open spec fn deep_view(&self) -> SourceContentsModel {
        SourceContentsModel { url: self.url@, sha: self.sha@ }
    }
}

impl Duplicate for SourceContents {
    fn duplicate(&self) -> (r: Self) {
        SourceContents { url: self.url.clone(), sha: self.sha.clone() }
    }
}

/// One build command.
#[derive(Debug, Clone, PartialEq, Eq, PartialOrd, Ord, Hash)]
pub enum RecipeBuildStep {
    Simple(String),
    Complex { cmd: String, serial: bool, bash: bool },
}

#[verifier::ext_equal]
pub enum RecipeBuildStepModel {
    Simple(Seq<char>),
    Complex { cmd: Seq<char>, serial: bool, bash: bool },
}

impl DeepView for RecipeBuildStep {
    type V = RecipeBuildStepModel;

    open spec fn deep_view(&self) -> RecipeBuildStepModel {
        match self {
            RecipeBuildStep::Simple(s) => RecipeBuildStepModel::Simple(s@),
            RecipeBuildStep::Complex { cmd, serial, bash } => RecipeBuildStepModel::Complex {
                cmd: cmd@,
                serial: *serial,
                bash: *bash,
            },
        }
    }
}

impl Duplicate for RecipeBuildStep {
    fn duplicate(&self) -> (r: Self) {
        match self {
            RecipeBuildStep::Simple(s) => RecipeBuildStep::Simple(s.clone()),
            RecipeBuildStep::Complex { cmd, serial, bash } => RecipeBuildStep::Complex {
                cmd: cmd.clone(),
                serial: *serial,
                bash: *bash,
            },
        }
    }
}

/// The build commands of a recipe: one list, or one list per build phase.
#[derive(Debug, Clone, PartialEq, Eq, PartialOrd, Ord, Hash)]
pub enum RecipeBuildSteps {
    Single { single: Vec<RecipeBuildStep> },
    Piecewise {
        unpack: Option<Vec<RecipeBuildStep>>,
        unpack_dirname: String,
        patch_dir: String,
        package_dir: Option<String>,
        prepare: Option<Vec<RecipeBuildStep>>,
        configure: Option<Vec<RecipeBuildStep>>,
        compile: Option<Vec<RecipeBuildStep>>,
        install: Option<Vec<RecipeBuildStep>>,
        postprocess: Option<Vec<RecipeBuildStep>>,
        checksum: bool,
    },
}

#[verifier::ext_equal]
pub enum RecipeBuildStepsModel {
    Single { single: Seq<RecipeBuildStepModel> },
    Piecewise {
        unpack: Option<Seq<RecipeBuildStepModel>>,
        unpack_dirname: Seq<char>,
        patch_dir: Seq<char>,
        package_dir: Option<Seq<char>>,
        prepare: Option<Seq<RecipeBuildStepModel>>,
        configure: Option<Seq<RecipeBuildStepModel>>,
        compile: Option<Seq<RecipeBuildStepModel>>,
        install: Option<Seq<RecipeBuildStepModel>>,
        postprocess: Option<Seq<RecipeBuildStepModel>>,
        checksum: bool,
    },
}

impl DeepView for RecipeBuildSteps {
    type V = RecipeBuildStepsModel;

    open spec fn deep_view(&self) -> RecipeBuildStepsModel {
        match self {
            RecipeBuildSteps::Single { single } => RecipeBuildStepsModel::Single {
                single: single.deep_view(),
            },
            RecipeBuildSteps::Piecewise {
                unpack,
                unpack_dirname,
                patch_dir,
                package_dir,
                prepare,
                configure,
                compile,
                install,
                postprocess,
                checksum,
            } => RecipeBuildStepsModel::Piecewise {
                unpack: unpack.deep_view(),
                unpack_dirname: unpack_dirname@,
                patch_dir: patch_dir@,
                package_dir: package_dir.deep_view(),
                prepare: prepare.deep_view(),
                configure: configure.deep_view(),
                compile: compile.deep_view(),
                install: install.deep_view(),
                postprocess: postprocess.deep_view(),
                checksum: *checksum,
            },
        }
    }
}

impl Duplicate for RecipeBuildSteps {
    fn duplicate(&self) -> (r: Self) {
        match self {
            RecipeBuildSteps::Single { single } => RecipeBuildSteps::Single {
                single: single.duplicate(),
            },
            RecipeBuildSteps::Piecewise {
                unpack,
                unpack_dirname,
                patch_dir,
                package_dir,
                prepare,
                configure,
                compile,
                install,
                postprocess,
                checksum,
            } => RecipeBuildSteps::Piecewise {
                unpack: unpack.duplicate(),
                unpack_dirname: unpack_dirname.clone(),
                patch_dir: patch_dir.clone(),
                package_dir: package_dir.duplicate(),
                prepare: prepare.duplicate(),
                configure: configure.duplicate(),
                compile: compile.duplicate(),
                install: install.duplicate(),
                postprocess: postprocess.duplicate(),
                checksum: *checksum,
            },
        }
    }
}

/// A dependency as a recipe names it: `name:version[:from[:to]]`.
#[derive(Debug, Clone)]
pub struct DepSpec {
    pub name: String,
    pub version: String,
    pub from: Option<String>,
    pub to: Option<String>,
}

#[verifier::ext_equal]
pub struct DepSpecModel {
    pub name: Seq<char>,
    pub version: Seq<char>,
    pub from: Option<Seq<char>>,
    pub to: Option<Seq<char>>,
}

impl DeepView for DepSpec {
    type V = DepSpecModel;

    open spec fn deep_view(&self) -> DepSpecModel {
        DepSpecModel {
            name: self.name@,
            version: self.version@,
            from: self.from.deep_view(),
            to: self.to.deep_view(),
        }
    }
}

/// The `i`-th piece, when there is one.
pub open spec fn piece_at(ps: Seq<Seq<char>>, i: int) -> Option<Seq<char>> {
    if i < ps.len() {
        Some(ps[i])
    } else {
        None
    }
}

/// The dependency that the text `s` names: the pieces between its colons, in
/// order, are the name, the version, and optionally `from` and `to`; further
/// pieces are ignored.
pub open spec fn dep_spec_of(s: Seq<char>) -> DepSpecModel {
    let ps = split_pieces(s, ':');
    DepSpecModel { name: ps[0], version: ps[1], from: piece_at(ps, 2), to: piece_at(ps, 3) }
}

/// Text that names a dependency: it holds at least the colon after the name.
pub open spec fn names_dependency(s: Seq<char>) -> bool {
    s.contains(':')
}

/// Text holding the separator splits into at least two pieces.
pub proof fn lemma_split_pieces_at_least_two(s: Seq<char>, sep: char)
    requires
        s.contains(sep),
    ensures
        split_pieces(s, sep).len() >= 2,
    decreases s.len(),
{
    crate::text::lemma_split_pieces_nonempty(s, sep);
    if s.last() != sep {
        let i = choose|i: int| 0 <= i < s.len() && s[i] == sep;
        assert(s.drop_last()[i] == sep);
        lemma_split_pieces_at_least_two(s.drop_last(), sep);
    } else {
        crate::text::lemma_split_pieces_nonempty(s.drop_last(), sep);
    }
}

impl DepSpec {
    /// Reads a dependency from its `name:version[:from[:to]]` text.
    pub fn from(s: String) -> (res: DepSpec)
        requires
            names_dependency(s@),
        ensures
            res.deep_view() == dep_spec_of(s@),
    {
        let pieces = split_char(s.as_str(), ':');
        proof {
            lemma_split_pieces_at_least_two(s@, ':');
        }
        let name = pieces[0].clone();
        let version = pieces[1].clone();
        let from = if pieces.len() > 2 {
            Some(pieces[2].clone())
        } else {
            None
        };
        let to = if pieces.len() > 3 {
            Some(pieces[3].clone())
        } else {
            None
        };
        let res = DepSpec { name, version, from, to };
        assert(views(pieces@)[0] == pieces@[0]@);
        assert(views(pieces@)[1] == pieces@[1]@);
        assert(pieces.len() > 2 ==> views(pieces@)[2] == pieces@[2]@);
        assert(pieces.len() > 3 ==> views(pieces@)[3] == pieces@[3]@);
        res
    }
}

/// A dependency of a hydrated recipe, named by the hash of the recipe it names.
#[derive(Debug, Clone, PartialEq, Eq, PartialOrd, Ord, Hash)]
pub struct HydratedDepSpec {
    pub hash: DepdRecipeHash,
    pub from: Option<String>,
    pub to: Option<String>,
}

#[verifier::ext_equal]
pub struct HydratedDepSpecModel {
    pub hash: Seq<char>,
    pub from: Option<Seq<char>>,
    pub to: Option<Seq<char>>,
}

impl DeepView for HydratedDepSpec {
    type V = HydratedDepSpecModel;

    open spec fn deep_view(&self) -> HydratedDepSpecModel {
        HydratedDepSpecModel {
            hash: self.hash.deep_view(),
            from: self.from.deep_view(),
            to: self.to.deep_view(),
        }
    }
}

impl Duplicate for HydratedDepSpec {
    fn duplicate(&self) -> (r: Self) {
        HydratedDepSpec {
            hash: self.hash.duplicate(),
            from: self.from.duplicate(),
            to: self.to.duplicate(),
        }
    }
}

/// Who holds a licence.
#[derive(Debug, Clone)]
pub enum Owner {
    Single(String),
    Multiple(Vec<String>),
}

/// A licence.
#[derive(Debug, Clone)]
pub struct License {
    pub spdx: String,
    pub owner: Owner,
    pub license_file: String,
}

/// The licences of a recipe and of the package it builds.
#[derive(Debug, Clone)]
pub struct Licenses {
    pub recipe: Option<License>,
    pub package: Option<License>,
}

/// Sources by name: each name once, listed in increasing order of name.
#[derive(Debug)]
pub struct SourceMap {
    entries: Vec<(String, Source)>,
}

impl SourceMap {
    #[verifier::type_invariant]
    spec fn ordered(self) -> bool {
        names_in_order(self.entries.deep_view())
    }

    /// The sources named by `entries`, a later entry replacing an earlier
    /// one with the same name.
    pub fn from_entries(entries: Vec<(String, Source)>) -> (res: Self)
        ensures
            lists_in_order(res.deep_view(), named_map_of(entries.deep_view())),
    {
        let listed = ordered_by_name(&entries);
        SourceMap { entries: listed }
    }

    /// The named sources, in increasing order of name.
    pub fn entries(&self) -> (res: &Vec<(String, Source)>)
        ensures
            res.deep_view() == self.deep_view(),
            names_in_order(res.deep_view()),
    {
        proof {
            use_type_invariant(self);
        }
        &self.entries
    }
}

impl Clone for SourceMap {
    fn clone(&self) -> (res: Self) {
        proof {
            use_type_invariant(self);
        }
        SourceMap { entries: self.entries.duplicate() }
    }
}

impl DeepView for SourceMap {
    type V = Seq<(Seq<char>, SourceModel)>;

    closed spec fn deep_view(&self) -> Seq<(Seq<char>, SourceModel)> {
        self.entries.deep_view()
    }
}

/// A recipe as written in its file.
#[derive(Debug, Clone)]
pub struct RecipeVersion {
    pub licenses: Option<Licenses>,
    pub source: Option<SourceMap>,
    pub deps: Option<Vec<String>>,
    pub mkdirs: Option<Vec<String>>,
    pub build: RecipeBuildSteps,
    pub artefacts: Vec<String>,
}

/// A recipe with its name and version, its dependencies read.
#[derive(Debug, Clone)]
pub struct NamedRecipeVersion {
    pub name: String,
    pub version: String,
    pub source: Option<SourceMap>,
    pub deps: Option<Vec<DepSpec>>,
    pub mkdirs: Option<Vec<String>>,
    pub build: RecipeBuildSteps,
    pub artefacts: Vec<String>,
}

/// A recipe with everything its build needs resolved: the contents of its
/// sources, its dependencies by hash, its environment and overlay files.
#[derive(Debug, Clone, PartialEq, Eq, PartialOrd, Ord, Hash)]
pub struct HydratedRecipeVersion {
    pub name: String,
    pub version: String,
    pub source: Vec<(Source, SourceContents)>,
    pub deps: Vec<HydratedDepSpec>,
    pub mkdirs: Vec<String>,
    pub build: RecipeBuildSteps,
    pub artefacts: Vec<String>,
    pub envs: Vec<(String, String)>,
    pub overlays: Vec<(String, Vec<u8>)>,
    pub bare_hash: BareRecipeHash,
    pub depd_hash: DepdRecipeHash,
}

#[verifier::ext_equal]
pub struct HydratedRecipeModel {
    pub name: Seq<char>,
    pub version: Seq<char>,
    pub source: Seq<(SourceModel, SourceContentsModel)>,
    pub deps: Seq<HydratedDepSpecModel>,
    pub mkdirs: Seq<Seq<char>>,
    pub build: RecipeBuildStepsModel,
    pub artefacts: Seq<Seq<char>>,
    pub envs: Seq<(Seq<char>, Seq<char>)>,
    pub overlays: Seq<(Seq<char>, Seq<u8>)>,
    pub bare_hash: Seq<char>,
    pub depd_hash: Seq<char>,
}

impl DeepView for HydratedRecipeVersion {
    type V = HydratedRecipeModel;

    open spec fn deep_view(&self) -> HydratedRecipeModel {
        HydratedRecipeModel {
            name: self.name@,
            version: self.version@,
            source: self.source.deep_view(),
            deps: self.deps.deep_view(),
            mkdirs: self.mkdirs.deep_view(),
            build: self.build.deep_view(),
            artefacts: self.artefacts.deep_view(),
            envs: self.envs.deep_view(),
            overlays: self.overlays.deep_view(),
            bare_hash: self.bare_hash.deep_view(),
            depd_hash: self.depd_hash.deep_view(),
        }
    }
}

impl Duplicate for HydratedRecipeVersion {
    fn duplicate(&self) -> (r: Self) {
        HydratedRecipeVersion {
            name: self.name.clone(),
            version: self.version.clone(),
            source: self.source.duplicate(),
            deps: self.deps.duplicate(),
            mkdirs: self.mkdirs.duplicate(),
            build: self.build.duplicate(),
            artefacts: self.artefacts.duplicate(),
            envs: self.envs.duplicate(),
            overlays: self.overlays.duplicate(),
            bare_hash: self.bare_hash.duplicate(),
            depd_hash: self.depd_hash.duplicate(),
        }
    }
}

/// The value a build-step flag takes when a recipe leaves it out: `serial`
/// and `checksum`.
pub fn _default_true() -> (b: bool)
    ensures
        b,
{
    true
}

/// The value a build-step flag takes when a recipe leaves it out: `bash`.
pub fn _default_false() -> (b: bool)
    ensures
        !b,
{
    false
}

/// Every dependency a recipe lists names one.
pub open spec fn deps_named(deps: Option<Vec<String>>) -> bool {
    match deps {
        Some(d) => forall|i: int| 0 <= i < d@.len() ==> names_dependency(#[trigger] d@[i]@),
        None => true,
    }
}

/// The dependencies that a recipe's dependency texts name.
pub open spec fn dep_list_of(deps: Option<Vec<String>>) -> Option<Seq<DepSpecModel>> {
    match deps {
        Some(d) => Some(d@.map_values(|s: String| dep_spec_of(s@))),
        None => None,
    }
}

fn parse_dep_list(deps: Option<Vec<String>>) -> (res: Option<Vec<DepSpec>>)
    requires
        deps_named(deps),
    ensures
        res.deep_view() == dep_list_of(deps),
{
    match deps {
        None => None,
        Some(d) => {
            let mut out: Vec<DepSpec> = Vec::new();
            let n = d.len();
            for i in 0..n
                invariant
                    n == d@.len(),
                    out@.len() == i,
                    forall|j: int| 0 <= j < d@.len() ==> names_dependency(#[trigger] d@[j]@),
                    forall|j: int|
                        0 <= j < i ==> (#[trigger] out@[j]).deep_view() == dep_spec_of(d@[j]@),
            {
                assert(names_dependency(d@[i as int]@));
                out.push(DepSpec::from(d[i].clone()));
            }
            assert(out.deep_view() =~= d@.map_values(|s: String| dep_spec_of(s@)));
            Some(out)
        },
    }
}

/// `res` is `rv` with name `name`, version `version` and its dependencies read.
pub open spec fn named_from(
    res: NamedRecipeVersion,
    name: Seq<char>,
    version: Seq<char>,
    rv: RecipeVersion,
) -> bool {
    &&& res.name@ == name
    &&& res.version@ == version
    &&& res.source == rv.source
    &&& res.deps.deep_view() == dep_list_of(rv.deps)
    &&& res.mkdirs == rv.mkdirs
    &&& res.build == rv.build
    &&& res.artefacts == rv.artefacts
}

impl NamedRecipeVersion {
    /// Names a recipe: `(name, version, recipe)`.
    pub fn from(parts: (String, String, RecipeVersion)) -> (res: Self)
        requires
            deps_named(parts.2.deps),
        ensures
            named_from(res, parts.0@, parts.1@, parts.2),
            res.name == parts.0,
            res.version == parts.1,
    {
        let (name, version, recipe) = parts;
        let deps = parse_dep_list(recipe.deps);
        NamedRecipeVersion {
            name,
            version,
            source: recipe.source,
            deps,
            mkdirs: recipe.mkdirs,
            build: recipe.build,
            artefacts: recipe.artefacts,
        }
    }

    /// The recipe `version` of `target`, whose file holds `rv`.
    pub fn load_by_target_version(target: &str, version: &str, rv: RecipeVersion) -> (res: Self)
        requires
            deps_named(rv.deps),
        ensures
            named_from(res, target@, version@, rv),
    {
        NamedRecipeVersion::from((target.to_owned(), version.to_owned(), rv))
    }

    /// The recipe named `target:version`, whose file holds `rv`.
    pub fn load_by_name(name: &str, rv: RecipeVersion) -> (res: Self)
        requires
            split_once_spec(name@, ':') is Some,
            deps_named(rv.deps),
        ensures
            named_from(
                res,
                split_once_spec(name@, ':').unwrap().0,
                split_once_spec(name@, ':').unwrap().1,
                rv,
            ),
    {
        match split_once_char(name, ':') {
            Some((target, version)) => NamedRecipeVersion::from((target, version, rv)),
            None => {
                assert(false);
                NamedRecipeVersion::from((String::new(), String::new(), rv))
            },
        }
    }
}

/// The target and the version that a `target:version` name holds.
pub fn target_and_version(name: &str) -> (res: Option<(String, String)>)
    ensures
        match (res, split_once_spec(name@, ':')) {
            (Some((a, b)), Some((x, y))) => a@ == x && b@ == y,
            (None, None) => true,
            _ => false,
        },
{
    split_once_char(name, ':')
}

/// Text in the form of a SHA-256 digest: 64 lowercase hexadecimal digits.
pub open spec fn is_digest_text(s: Seq<char>) -> bool {
    s.len() == 64 && forall|i: int| 0 <= i < 64 ==> is_lower_hex_digit(#[trigger] s[i])
}

/// `h` is the digest of an encoding that `encode` gives of a recipe whose
/// deep view is `m`.
pub open spec fn digest_of_encoding<F: Fn(&HydratedRecipeVersion) -> Vec<u8>>(
    encode: F,
    m: HydratedRecipeModel,
    h: Seq<char>,
) -> bool {
    exists|r: HydratedRecipeVersion, b: Vec<u8>|
        #[trigger] encode.ensures((&r,), b) && r.deep_view() == m && h == sha256_hex(b@)
}

/// The recipe `m` with its dependency list emptied.
pub open spec fn without_deps(m: HydratedRecipeModel) -> HydratedRecipeModel {
    HydratedRecipeModel { deps: Seq::empty(), ..m }
}

/// The SHA-256 digest of the encoding that `encode` gives of `recipe`.
pub fn encode_digest<F: Fn(&HydratedRecipeVersion) -> Vec<u8>>(
    recipe: &HydratedRecipeVersion,
    encode: &F,
) -> (h: String)
    requires
        forall|r: &HydratedRecipeVersion| encode.requires((r,)),
    ensures
        digest_of_encoding(*encode, recipe.deep_view(), h@),
        is_digest_text(h@),
{
    let bytes = encode(recipe);
    sha256_digest(bytes.as_slice())
}

/// The recipe without its dependencies has an empty dependency list and
/// agrees with the recipe on every other field; so recipes that differ only
/// in their dependencies are the same without them.
pub proof fn law_without_deps_empties_deps(m: HydratedRecipeModel, other: HydratedRecipeModel)
    ensures
        without_deps(m).deps.len() == 0,
        (HydratedRecipeModel { deps: m.deps, ..without_deps(m) }) == m,
        (HydratedRecipeModel { deps: m.deps, ..other }) == m ==> without_deps(other) == without_deps(m),
{
}

/// `a` and `b` agree on every field but their dependencies.
pub open spec fn same_but_deps(a: HydratedRecipeModel, b: HydratedRecipeModel) -> bool {
    &&& a.name == b.name
    &&& a.version == b.version
    &&& a.source == b.source
    &&& a.mkdirs == b.mkdirs
    &&& a.build == b.build
    &&& a.artefacts == b.artefacts
    &&& a.envs == b.envs
    &&& a.overlays == b.overlays
    &&& a.bare_hash == b.bare_hash
    &&& a.depd_hash == b.depd_hash
}

/// The bare hash is a digest of the recipe with its whole dependency list
/// emptied: whatever the dependencies were, the recipe hashed for it has
/// none, and is otherwise the recipe itself.
pub proof fn law_bare_hash_is_digest_without_deps<F: Fn(&HydratedRecipeVersion) -> Vec<u8>>(
    encode: F,
    m: HydratedRecipeModel,
    h: Seq<char>,
)
    requires
        digest_of_encoding(encode, without_deps(m), h),
    ensures
        exists|r: HydratedRecipeVersion, b: Vec<u8>|
            #[trigger] encode.ensures((&r,), b) && r.deps@.len() == 0 && same_but_deps(r.deep_view(), m)
                && h == sha256_hex(b@),
{
    let (r, b) = choose|r: HydratedRecipeVersion, b: Vec<u8>|
        #[trigger] encode.ensures((&r,), b) && r.deep_view() == without_deps(m) && h == sha256_hex(b@);
    assert(r.deep_view().deps.len() == r.deps@.len());
}

/// The hashes of a hydrated recipe: of it without its dependencies, and of it
/// whole, each the SHA-256 digest of the encoding `encode` gives.
pub fn generate_recipe_hashes<F: Fn(&HydratedRecipeVersion) -> Vec<u8>>(
    recipe: &HydratedRecipeVersion,
    encode: &F,
) -> (res: (BareRecipeHash, DepdRecipeHash))
    requires
        forall|r: &HydratedRecipeVersion| encode.requires((r,)),
    ensures
        digest_of_encoding(*encode, without_deps(recipe.deep_view()), res.0.0@),
        digest_of_encoding(*encode, recipe.deep_view(), res.1.0@),
        is_digest_text(res.0.0@),
        is_digest_text(res.1.0@),
{
    let depd = DepdRecipeHash(encode_digest(recipe, encode));
    let mut bare_recipe = recipe.duplicate();
    bare_recipe.deps = Vec::new();
    assert(bare_recipe.deps.deep_view() =~= Seq::<HydratedDepSpecModel>::empty());
    assert(bare_recipe.deep_view() =~= without_deps(recipe.deep_view()));
    let bare = BareRecipeHash(encode_digest(&bare_recipe, encode));
    (bare, depd)
}

/// The hash of `recipe` without its dependencies, as recorded in it.
pub fn get_bare_recipe_hash_from_recipe(recipe: &HydratedRecipeVersion) -> (res: BareRecipeHash)
    ensures
        res == recipe.bare_hash,
{
    BareRecipeHash(recipe.bare_hash.0.clone())
}

/// The hash of `recipe`, as recorded in it.
pub fn get_depd_hash_from_recipe(recipe: &HydratedRecipeVersion) -> (res: DepdRecipeHash)
    ensures
        res == recipe.depd_hash,
{
    DepdRecipeHash(recipe.depd_hash.0.clone())
}

/// Why a query of the recipe store failed.
#[derive(Debug, Clone, Copy, PartialEq, Eq)]
pub enum StoreError {
    /// The database of build outputs could not be read or written.
    Database,
    /// The database holds a build-output hash that is not UTF-8 text.
    InvalidUtf8,
    /// A build was recorded for a recipe whose equivalence hash is unknown.
    UnknownRecipe,
}

/// The recipes the server knows, by hash, and what is known of their build
/// outputs: the equivalence hash of each recipe computed so far, the hash of
/// the build output recorded for each equivalence hash, and the database in
/// which those outputs are recorded.
pub struct RecipeStore {
    recipes: RecipeMap,
    eq_depd_cache: StringMap,
    equiv_cache: StringMap,
    equiv_db: sled::Db,
}

/// The bytes under which a text is stored in the database: its UTF-8 encoding.
pub open spec fn key_bytes(s: Seq<char>) -> Seq<u8> {
    encode_utf8(s)
}

/// `sub` is `m` with the hash of each dependency replaced by `hashes`, in order.
pub open spec fn with_dep_hashes(
    m: HydratedRecipeModel,
    hashes: Seq<Seq<char>>,
    sub: HydratedRecipeModel,
) -> bool {
    &&& hashes.len() == m.deps.len()
    &&& sub == HydratedRecipeModel {
        deps: Seq::new(
            m.deps.len(),
            |i: int| HydratedDepSpecModel { hash: hashes[i], from: m.deps[i].from, to: m.deps[i].to },
        ),
        ..m
    }
}

impl RecipeStore {
    /// The recipes, by the text of their hash.
    pub closed spec fn recipes(&self) -> Map<Seq<char>, HydratedRecipeModel> {
        recipe_map_contents(self.recipes)
    }

    /// The equivalence hash computed so far for each recipe hash.
    pub closed spec fn eq_depd_cache(&self) -> Map<Seq<char>, Seq<char>> {
        string_map_contents(self.eq_depd_cache)
    }

    /// The build-output hash read so far for each equivalence hash.
    pub closed spec fn equiv_cache(&self) -> Map<Seq<char>, Seq<char>> {
        string_map_contents(self.equiv_cache)
    }

    /// The database of build outputs: equivalence hash to build-output hash.
    pub closed spec fn equiv_db(&self) -> Map<Seq<u8>, Seq<u8>> {
        sled_contents(self.equiv_db)
    }

    /// The recipe `m` has the build output `e`, as far as the caches know.
    pub open spec fn recipe_resolves(&self, m: HydratedRecipeModel, e: Seq<char>) -> bool {
        &&& self.eq_depd_cache().contains_key(m.depd_hash)
        &&& self.equiv_cache().contains_key(self.eq_depd_cache()[m.depd_hash])
        &&& self.equiv_cache()[self.eq_depd_cache()[m.depd_hash]] == e
    }

    /// The recipe stored under the hash `depd` has the build output `e`, as
    /// far as the caches know.
    pub open spec fn resolves(&self, depd: Seq<char>, e: Seq<char>) -> bool {
        &&& self.recipes().contains_key(depd)
        &&& self.recipe_resolves(self.recipes()[depd], e)
    }

    /// Some build output is known, through the caches, for the recipe
    /// stored under `depd`.
    pub open spec fn resolved(&self, depd: Seq<char>) -> bool {
        exists|e: Seq<char>| #[trigger] self.resolves(depd, e)
    }

    /// No build output is known, through the caches, for the recipe stored
    /// under `depd`.
    pub open spec fn unresolved(&self, depd: Seq<char>) -> bool {
        forall|e: Seq<char>| !#[trigger] self.resolves(depd, e)
    }

    /// Every recipe is stored under its own hash.
    pub open spec fn keyed_by_hash(&self) -> bool {
        forall|k: Seq<char>|
            #[trigger] self.recipes().contains_key(k) ==> self.recipes()[k].depd_hash == k
    }

    /// `later` holds the same recipes and database as `self`, and caches that
    /// extend these without changing any entry.
    pub open spec fn grows_to(&self, later: &Self) -> bool {
        &&& later.recipes() == self.recipes()
        &&& later.equiv_db() == self.equiv_db()
        &&& self.eq_depd_cache().submap_of(later.eq_depd_cache())
        &&& self.equiv_cache().submap_of(later.equiv_cache())
    }

    /// `later` is in every respect the same as `self`.
    pub open spec fn same_as(&self, later: &Self) -> bool {
        &&& later.recipes() == self.recipes()
        &&& later.equiv_db() == self.equiv_db()
        &&& later.eq_depd_cache() == self.eq_depd_cache()
        &&& later.equiv_cache() == self.equiv_cache()
    }

    /// A store with no recipes and empty caches over the database `equiv_db`.
    pub fn new(equiv_db: sled::Db) -> (res: Self)
        ensures
            res.recipes().is_empty(),
            res.keyed_by_hash(),
            res.eq_depd_cache().is_empty(),
            res.equiv_cache().is_empty(),
            res.equiv_db() == sled_contents(equiv_db),
    {
        RecipeStore {
            recipes: recipe_map_new(),
            eq_depd_cache: string_map_new(),
            equiv_cache: string_map_new(),
            equiv_db,
        }
    }

    /// Stores `recipe` under its own hash, replacing what was stored there.
    pub fn add_recipe(&mut self, recipe: HydratedRecipeVersion)
        ensures
            final(self).recipes() == old(self).recipes().insert(
                recipe.depd_hash.deep_view(),
                recipe.deep_view(),
            ),
            old(self).keyed_by_hash() ==> final(self).keyed_by_hash(),
            final(self).eq_depd_cache() == old(self).eq_depd_cache(),
            final(self).equiv_cache() == old(self).equiv_cache(),
            final(self).equiv_db() == old(self).equiv_db(),
    {
        let key = recipe.depd_hash.0.clone();
        recipe_map_insert(&mut self.recipes, key, recipe);
    }

    /// The recipe stored under `hash`, if there is one.
    pub fn recipe(&self, hash: &DepdRecipeHash) -> (res: Option<HydratedRecipeVersion>)
        ensures
            match res {
                Some(r) => self.recipes().contains_key(hash.deep_view()) && r.deep_view()
                    == self.recipes()[hash.deep_view()],
                None => !self.recipes().contains_key(hash.deep_view()),
            },
    {
        recipe_map_get(&self.recipes, hash.0.as_str())
    }
}

/// What reading the build-output hash recorded for the equivalence hash `k`
/// does, from store `before` to store `after`, answering `res`: a cached
/// answer is given again and nothing changes; otherwise the database is read,
/// and a hash found there, when it is UTF-8 text, is answered and cached.
pub open spec fn equiv_read(
    before: RecipeStore,
    after: RecipeStore,
    k: Seq<char>,
    res: Result<Option<EquivHash>, StoreError>,
) -> bool {
    let kb = key_bytes(k);
    if before.equiv_cache().contains_key(k) {
        &&& res matches Ok(Some(e)) && e.deep_view() == before.equiv_cache()[k]
        &&& before.same_as(&after)
    } else {
        &&& after.recipes() == before.recipes()
        &&& after.eq_depd_cache() == before.eq_depd_cache()
        &&& after.equiv_db() == before.equiv_db()
        &&& match res {
            Ok(Some(e)) => {
                &&& before.equiv_db().contains_key(kb)
                &&& valid_utf8(before.equiv_db()[kb])
                &&& e.deep_view() == decode_utf8(before.equiv_db()[kb])
                &&& after.equiv_cache() == before.equiv_cache().insert(k, e.deep_view())
            },
            Ok(None) => !before.equiv_db().contains_key(kb) && after.equiv_cache()
                == before.equiv_cache(),
            Err(StoreError::InvalidUtf8) => {
                &&& before.equiv_db().contains_key(kb)
                &&& !valid_utf8(before.equiv_db()[kb])
                &&& after.equiv_cache() == before.equiv_cache()
            },
            Err(StoreError::Database) => after.equiv_cache() == before.equiv_cache(),
            Err(StoreError::UnknownRecipe) => false,
        }
    }
}

/// What the database answered for the key bytes of `k`: `None` when the
/// read failed, otherwise what the database holds under them.
pub open spec fn db_answer_matches(st: RecipeStore, k: Seq<char>, found: Option<Option<Seq<u8>>>) -> bool {
    match found {
        None => true,
        Some(None) => !st.equiv_db().contains_key(key_bytes(k)),
        Some(Some(b)) => st.equiv_db().contains_key(key_bytes(k)) && st.equiv_db()[key_bytes(k)] == b,
    }
}

/// What the store does with the database's answer `found` for the
/// equivalence hash `k`, from store `before` to store `after`, answering
/// `res`: a failed read is a database error; no value is no output; a value
/// that is UTF-8 text is the output, and is cached; any other value is
/// malformed. Only a cached output changes the store.
pub open spec fn db_answer_taken(
    before: RecipeStore,
    after: RecipeStore,
    k: Seq<char>,
    found: Option<Option<Seq<u8>>>,
    res: Result<Option<EquivHash>, StoreError>,
) -> bool {
    &&& after.recipes() == before.recipes()
    &&& after.eq_depd_cache() == before.eq_depd_cache()
    &&& after.equiv_db() == before.equiv_db()
    &&& match found {
        None => res matches Err(StoreError::Database) && after.equiv_cache() == before.equiv_cache(),
        Some(None) => res matches Ok(None) && after.equiv_cache() == before.equiv_cache(),
        Some(Some(b)) => if valid_utf8(b) {
            &&& res matches Ok(Some(e)) && e.deep_view() == decode_utf8(b)
            &&& after.equiv_cache() == before.equiv_cache().insert(k, decode_utf8(b))
        } else {
            res matches Err(StoreError::InvalidUtf8) && after.equiv_cache() == before.equiv_cache()
        },
    }
}

/// Takes the database's answer `found` for the equivalence hash
/// `recipe_hash`, not cached: `None` when the read failed, otherwise the
/// value the database holds under its key, if any.
pub fn equiv_from_db_answer(
    store: &mut RecipeStore,
    recipe_hash: &EqDepdRecipeHash,
    found: Option<Option<Vec<u8>>>,
) -> (res: Result<Option<EquivHash>, StoreError>)
    requires
        !old(store).equiv_cache().contains_key(recipe_hash.deep_view()),
    ensures
        db_answer_taken(
            *old(store),
            *final(store),
            recipe_hash.deep_view(),
            found.deep_view(),
            res,
        ),
{
    match found {
        None => Err(StoreError::Database),
        Some(None) => Ok(None),
        Some(Some(bytes)) => {
            let ghost b = bytes@;
            assert(bytes.deep_view() =~= b);
            match string_from_utf8(bytes) {
                None => Err(StoreError::InvalidUtf8),
                Some(text) => {
                    string_map_insert(&mut store.equiv_cache, recipe_hash.0.clone(), text.clone());
                    Ok(Some(EquivHash(text)))
                },
            }
        },
    }
}

/// The build-output hash recorded for the equivalence hash `recipe_hash`:
/// from the cache, or else from the database, whose answer is then taken
/// as `equiv_from_db_answer` says.
pub fn get_equiv_hash_from_eq_depd(store: &mut RecipeStore, recipe_hash: &EqDepdRecipeHash) -> (res:
    Result<Option<EquivHash>, StoreError>)
    ensures
        equiv_read(*old(store), *final(store), recipe_hash.deep_view(), res),
        old(store).grows_to(final(store)),
        !old(store).equiv_cache().contains_key(recipe_hash.deep_view()) ==> exists|
            found: Option<Option<Seq<u8>>>,
        |
            db_answer_matches(*old(store), recipe_hash.deep_view(), found) && #[trigger] db_answer_taken(
                *old(store),
                *final(store),
                recipe_hash.deep_view(),
                found,
                res,
            ),
{
    let key: &str = recipe_hash.0.as_str();
    match string_map_get(&store.equiv_cache, key) {
        Some(hash) => {
            return Ok(Some(EquivHash(hash)));
        },
        None => {},
    }
    let found = match sled_get(&store.equiv_db, key.as_bytes()) {
        Ok(found) => Some(found),
        Err(_) => None,
    };
    let ghost fv = found.deep_view();
    proof {
        if found is Some && found->0 is Some {
            assert(fv == Some(Some(found->0->0@)));
        }
        assert(db_answer_matches(*store, recipe_hash.deep_view(), fv));
    }
    equiv_from_db_answer(store, recipe_hash, found)
}

/// `stack` holds no hash that the cache of equivalence hashes of `st` holds.
pub open spec fn off_cache(st: RecipeStore, stack: Seq<Seq<char>>) -> bool {
    forall|i: int| 0 <= i < stack.len() ==> !st.eq_depd_cache().contains_key(#[trigger] stack[i])
}

/// No build output is recorded for the equivalence hash `q`, neither in the
/// cache nor in the database.
pub open spec fn output_missing(st: RecipeStore, q: Seq<char>) -> bool {
    &&& !st.equiv_cache().contains_key(q)
    &&& !st.equiv_db().contains_key(key_bytes(q))
}

/// How many levels of dependencies the store follows.
pub open spec fn search_depth() -> nat {
    u64::MAX as nat
}

/// No build output can be found for the recipe stored under `d`, following
/// at most `f` levels of dependencies, while the recipes with hashes in
/// `under_way` are being computed: it is not stored; or its equivalence hash
/// is known and no output is recorded for it; or its equivalence hash is not
/// known and either it is under way itself (a dependency leads back to it)
/// or some dependency of it has no output to be found.
pub open spec fn blocked(st: RecipeStore, d: Seq<char>, f: nat, under_way: Seq<Seq<char>>) -> bool
    decreases f, 0nat,
{
    if f == 0 {
        true
    } else if !st.recipes().contains_key(d) {
        true
    } else {
        let m = st.recipes()[d];
        if st.eq_depd_cache().contains_key(m.depd_hash) {
            output_missing(st, st.eq_depd_cache()[m.depd_hash])
        } else if under_way.contains(m.depd_hash) {
            true
        } else {
            any_blocked(st, m.deps, (f - 1) as nat, under_way.push(m.depd_hash))
        }
    }
}

/// Some dependency among `deps` has no build output to be found.
pub open spec fn any_blocked(
    st: RecipeStore,
    deps: Seq<HydratedDepSpecModel>,
    f: nat,
    under_way: Seq<Seq<char>>,
) -> bool
    decreases f, deps.len() + 1,
{
    deps.len() > 0 && (blocked(st, deps.last().hash, f, under_way) || any_blocked(
        st,
        deps.drop_last(),
        f,
        under_way,
    ))
}

/// `any_blocked` holds exactly when some dependency in the list is blocked.
proof fn lemma_any_blocked(
    st: RecipeStore,
    deps: Seq<HydratedDepSpecModel>,
    f: nat,
    under_way: Seq<Seq<char>>,
)
    ensures
        any_blocked(st, deps, f, under_way) <==> exists|i: int|
            0 <= i < deps.len() && #[trigger] blocked(st, deps[i].hash, f, under_way),
    decreases deps.len(),
{
    if deps.len() > 0 {
        lemma_any_blocked(st, deps.drop_last(), f, under_way);
        if any_blocked(st, deps, f, under_way) {
            if blocked(st, deps.last().hash, f, under_way) {
                assert(blocked(st, deps[deps.len() - 1].hash, f, under_way));
            } else {
                let i = choose|i: int|
                    0 <= i < deps.drop_last().len() && #[trigger] blocked(
                        st,
                        deps.drop_last()[i].hash,
                        f,
                        under_way,
                    );
                assert(deps[i] == deps.drop_last()[i]);
            }
        }
        if exists|i: int| 0 <= i < deps.len() && #[trigger] blocked(st, deps[i].hash, f, under_way) {
            let i = choose|i: int|
                0 <= i < deps.len() && #[trigger] blocked(st, deps[i].hash, f, under_way);
            if i < deps.len() - 1 {
                assert(deps.drop_last()[i] == deps[i]);
            }
        }
    }
}

/// Some dependency of the recipe `m` has no build output to be found.
pub open spec fn deps_blocked(
    st: RecipeStore,
    m: HydratedRecipeModel,
    f: nat,
    under_way: Seq<Seq<char>>,
) -> bool {
    any_blocked(st, m.deps, f, under_way)
}

/// A recipe one of whose dependencies has no output to be found.
proof fn lemma_dep_blocked(
    st: RecipeStore,
    m: HydratedRecipeModel,
    f: nat,
    under_way: Seq<Seq<char>>,
    i: int,
)
    requires
        0 <= i < m.deps.len(),
        blocked(st, m.deps[i].hash, f, under_way),
    ensures
        deps_blocked(st, m, f, under_way),
{
    lemma_any_blocked(st, m.deps, f, under_way);
}

/// A stored recipe whose equivalence hash is not known, and whose
/// computation is not under way, has no output to be found when one of its
/// dependencies has none.
proof fn lemma_blocked_by_dep(
    st: RecipeStore,
    d: Seq<char>,
    f: nat,
    under_way: Seq<Seq<char>>,
    j: int,
)
    requires
        f > 0,
        st.recipes().contains_key(d),
        !st.eq_depd_cache().contains_key(st.recipes()[d].depd_hash),
        !under_way.contains(st.recipes()[d].depd_hash),
        0 <= j < st.recipes()[d].deps.len(),
        blocked(
            st,
            st.recipes()[d].deps[j].hash,
            (f - 1) as nat,
            under_way.push(st.recipes()[d].depd_hash),
        ),
    ensures
        blocked(st, d, f, under_way),
{
    let m = st.recipes()[d];
    lemma_any_blocked(st, m.deps, (f - 1) as nat, under_way.push(m.depd_hash));
}

/// No build output can be found for the recipe `m`: its equivalence hash is
/// known and no output is recorded for it, or it is not known and some
/// dependency has no output to be found (the database consulted for every
/// dependency whose equivalence hash is known).
pub open spec fn recipe_no_output(st: RecipeStore, m: HydratedRecipeModel) -> bool {
    if st.eq_depd_cache().contains_key(m.depd_hash) {
        output_missing(st, st.eq_depd_cache()[m.depd_hash])
    } else {
        deps_blocked(st, m, search_depth(), seq![m.depd_hash])
    }
}

/// The equivalence hash of the recipe `m` cannot be computed: it is not
/// known, and some dependency has no build output to be found.
pub open spec fn eq_hash_blocked(st: RecipeStore, m: HydratedRecipeModel) -> bool {
    &&& !st.eq_depd_cache().contains_key(m.depd_hash)
    &&& deps_blocked(st, m, search_depth(), seq![m.depd_hash])
}

/// No build output can be found for the recipe stored under `d`.
pub open spec fn no_output(st: RecipeStore, d: Seq<char>) -> bool {
    blocked(st, d, search_depth() + 1, Seq::empty())
}

/// `q` is the equivalence hash of the recipe `m` as far as `st` knows: the
/// digest of the encoding of `m` with each dependency named by the build
/// output the caches of `st` hold for it.
pub open spec fn eq_hash_of<F: Fn(&HydratedRecipeVersion) -> Vec<u8>>(
    st: RecipeStore,
    encode: F,
    m: HydratedRecipeModel,
    q: Seq<char>,
) -> bool {
    exists|hs: Seq<Seq<char>>, sub: HydratedRecipeModel|
        {
            &&& #[trigger] with_dep_hashes(m, hs, sub)
            &&& digest_of_encoding(encode, sub, q)
            &&& forall|i: int| 0 <= i < hs.len() ==> #[trigger] st.resolves(m.deps[i].hash, hs[i])
        }
}

/// The build output cached for the equivalence hash `k` is the one the
/// database records for it.
pub open spec fn output_entry_sound(st: RecipeStore, k: Seq<char>) -> bool {
    &&& st.equiv_db().contains_key(key_bytes(k))
    &&& st.equiv_db()[key_bytes(k)] == key_bytes(st.equiv_cache()[k])
}

/// The equivalence hash cached for the recipe hash `d` is that of a recipe
/// with hash `d`, as far as `st` knows.
pub open spec fn eq_entry_sound<F: Fn(&HydratedRecipeVersion) -> Vec<u8>>(
    st: RecipeStore,
    encode: F,
    d: Seq<char>,
) -> bool {
    exists|m: HydratedRecipeModel|
        m.depd_hash == d && #[trigger] eq_hash_of(st, encode, m, st.eq_depd_cache()[d])
}

/// Every entry of the caches of `st` is sound: each cached build output is
/// the one recorded in the database, and each cached equivalence hash is
/// computed through `encode` from build outputs the caches hold.
pub open spec fn cache_sound<F: Fn(&HydratedRecipeVersion) -> Vec<u8>>(st: RecipeStore, encode: F) -> bool {
    &&& forall|k: Seq<char>| #[trigger] st.equiv_cache().contains_key(k) ==> output_entry_sound(st, k)
    &&& forall|d: Seq<char>| #[trigger] st.eq_depd_cache().contains_key(d) ==> eq_entry_sound(st, encode, d)
}

/// From `a` to `b` the caches only grow, and every entry added is sound in
/// `b`.
pub open spec fn sound_growth<F: Fn(&HydratedRecipeVersion) -> Vec<u8>>(
    a: RecipeStore,
    b: RecipeStore,
    encode: F,
) -> bool {
    &&& a.grows_to(&b)
    &&& forall|k: Seq<char>|
        #[trigger] b.equiv_cache().contains_key(k) && !a.equiv_cache().contains_key(k)
            ==> output_entry_sound(b, k)
    &&& forall|d: Seq<char>|
        #[trigger] b.eq_depd_cache().contains_key(d) && !a.eq_depd_cache().contains_key(d)
            ==> eq_entry_sound(b, encode, d)
}

/// Every equivalence hash cached from `a` to `b` under the hash of a stored
/// recipe is computed from that recipe, as far as `b` knows.
pub open spec fn stored_sound_growth<F: Fn(&HydratedRecipeVersion) -> Vec<u8>>(
    a: RecipeStore,
    b: RecipeStore,
    encode: F,
) -> bool {
    forall|d: Seq<char>|
        #[trigger] b.eq_depd_cache().contains_key(d) && !a.eq_depd_cache().contains_key(d)
            && b.recipes().contains_key(d) ==> eq_hash_of(b, encode, b.recipes()[d], b.eq_depd_cache()[d])
}

/// The recipe `m` is the one `st` stores under its hash, if any is.
pub open spec fn stored_as_itself(st: RecipeStore, m: HydratedRecipeModel) -> bool {
    st.recipes().contains_key(m.depd_hash) ==> st.recipes()[m.depd_hash] == m
}

proof fn lemma_stored_sound_growth_trans<F: Fn(&HydratedRecipeVersion) -> Vec<u8>>(
    a: RecipeStore,
    b: RecipeStore,
    c: RecipeStore,
    encode: F,
)
    requires
        a.grows_to(&b),
        b.grows_to(&c),
        stored_sound_growth(a, b, encode),
        stored_sound_growth(b, c, encode),
    ensures
        stored_sound_growth(a, c, encode),
{
    assert forall|d: Seq<char>|
        #[trigger] c.eq_depd_cache().contains_key(d) && !a.eq_depd_cache().contains_key(d)
            && c.recipes().contains_key(d) implies eq_hash_of(c, encode, c.recipes()[d], c.eq_depd_cache()[d]) by {
        if b.eq_depd_cache().contains_key(d) {
            assert(b.eq_depd_cache().dom().contains(d));
            assert(c.eq_depd_cache().dom().contains(d));
            assert(b.eq_depd_cache()[d] == c.eq_depd_cache()[d]);
            lemma_eq_hash_of_persists(b, c, encode, b.recipes()[d], b.eq_depd_cache()[d]);
        }
    }
}

/// A computed equivalence hash stays computed as the caches grow.
proof fn lemma_eq_hash_of_persists<F: Fn(&HydratedRecipeVersion) -> Vec<u8>>(
    a: RecipeStore,
    b: RecipeStore,
    encode: F,
    m: HydratedRecipeModel,
    q: Seq<char>,
)
    requires
        a.grows_to(&b),
        eq_hash_of(a, encode, m, q),
    ensures
        eq_hash_of(b, encode, m, q),
{
    let (hs, sub) = choose|hs: Seq<Seq<char>>, sub: HydratedRecipeModel|
        {
            &&& #[trigger] with_dep_hashes(m, hs, sub)
            &&& digest_of_encoding(encode, sub, q)
            &&& forall|i: int| 0 <= i < hs.len() ==> #[trigger] a.resolves(m.deps[i].hash, hs[i])
        };
    assert forall|i: int| 0 <= i < hs.len() implies #[trigger] b.resolves(m.deps[i].hash, hs[i]) by {
        lemma_resolves_persists(a, b, m.deps[i].hash, hs[i]);
    }
}

/// A sound equivalence-hash entry stays sound as the caches grow.
proof fn lemma_eq_entry_persists<F: Fn(&HydratedRecipeVersion) -> Vec<u8>>(
    a: RecipeStore,
    b: RecipeStore,
    encode: F,
    d: Seq<char>,
)
    requires
        a.grows_to(&b),
        a.eq_depd_cache().contains_key(d),
        eq_entry_sound(a, encode, d),
    ensures
        eq_entry_sound(b, encode, d),
{
    let m = choose|m: HydratedRecipeModel|
        m.depd_hash == d && #[trigger] eq_hash_of(a, encode, m, a.eq_depd_cache()[d]);
    lemma_eq_hash_of_persists(a, b, encode, m, a.eq_depd_cache()[d]);
    assert(a.eq_depd_cache().dom().contains(d));
    assert(b.eq_depd_cache().dom().contains(d));
    assert(b.eq_depd_cache()[d] == a.eq_depd_cache()[d]);
}

/// Nothing is added from a store to itself.
proof fn lemma_sound_growth_refl<F: Fn(&HydratedRecipeVersion) -> Vec<u8>>(a: RecipeStore, encode: F)
    ensures
        sound_growth(a, a, encode),
{
}

/// Sound growth is transitive.
pub proof fn lemma_sound_growth_trans<F: Fn(&HydratedRecipeVersion) -> Vec<u8>>(
    a: RecipeStore,
    b: RecipeStore,
    c: RecipeStore,
    encode: F,
)
    requires
        sound_growth(a, b, encode),
        sound_growth(b, c, encode),
    ensures
        sound_growth(a, c, encode),
{
    lemma_grows_to_trans(a, b, c);
    assert forall|k: Seq<char>|
        #[trigger] c.equiv_cache().contains_key(k) && !a.equiv_cache().contains_key(k) implies output_entry_sound(c, k) by {
        if b.equiv_cache().contains_key(k) {
            assert(c.equiv_cache().dom().contains(k));
            assert(b.equiv_cache()[k] == c.equiv_cache()[k]);
        }
    }
    assert forall|d: Seq<char>|
        #[trigger] c.eq_depd_cache().contains_key(d) && !a.eq_depd_cache().contains_key(d) implies eq_entry_sound(c, encode, d) by {
        if b.eq_depd_cache().contains_key(d) {
            lemma_eq_entry_persists(b, c, encode, d);
        }
    }
}

/// Reading a build output adds only what the database records.
proof fn lemma_equiv_read_sound<F: Fn(&HydratedRecipeVersion) -> Vec<u8>>(
    a: RecipeStore,
    b: RecipeStore,
    encode: F,
    k: Seq<char>,
    res: Result<Option<EquivHash>, StoreError>,
)
    requires
        equiv_read(a, b, k, res),
    ensures
        sound_growth(a, b, encode),
{
    if !a.equiv_cache().contains_key(k) {
        match res {
            Ok(Some(e)) => {
                let kb = key_bytes(k);
                vstd::utf8::decode_utf8_encode_utf8(a.equiv_db()[kb]);
                assert(b.equiv_cache() == a.equiv_cache().insert(k, e.deep_view()));
            },
            _ => {
                assert(b.equiv_cache() =~= a.equiv_cache());
            },
        }
        assert(b.eq_depd_cache() =~= a.eq_depd_cache());
    }
}

/// Sound caches stay sound through sound growth.
pub proof fn law_sound_growth_keeps_caches_sound<F: Fn(&HydratedRecipeVersion) -> Vec<u8>>(
    a: RecipeStore,
    b: RecipeStore,
    encode: F,
)
    requires
        cache_sound(a, encode),
        sound_growth(a, b, encode),
    ensures
        cache_sound(b, encode),
{
    assert forall|k: Seq<char>| #[trigger] b.equiv_cache().contains_key(k) implies output_entry_sound(b, k) by {
        if a.equiv_cache().contains_key(k) {
            assert(b.equiv_cache().dom().contains(k));
            assert(a.equiv_cache()[k] == b.equiv_cache()[k]);
        }
    }
    assert forall|d: Seq<char>| #[trigger] b.eq_depd_cache().contains_key(d) implies eq_entry_sound(b, encode, d) by {
        if a.eq_depd_cache().contains_key(d) {
            lemma_eq_entry_persists(a, b, encode, d);
        }
    }
}

/// Empty caches are sound, whatever the encoding.
pub proof fn law_empty_caches_sound<F: Fn(&HydratedRecipeVersion) -> Vec<u8>>(st: RecipeStore, encode: F)
    requires
        st.eq_depd_cache().is_empty(),
        st.equiv_cache().is_empty(),
    ensures
        cache_sound(st, encode),
{
    assert forall|k: Seq<char>| #[trigger] st.equiv_cache().contains_key(k) implies output_entry_sound(st, k) by {
        assert(st.equiv_cache().dom().contains(k));
    }
    assert forall|d: Seq<char>| #[trigger] st.eq_depd_cache().contains_key(d) implies eq_entry_sound(st, encode, d) by {
        assert(st.eq_depd_cache().dom().contains(d));
    }
}

/// Storing a recipe under its own hash keeps sound caches sound, in a store
/// whose recipes are all stored under their own hashes.
pub proof fn law_adding_recipe_keeps_caches_sound<F: Fn(&HydratedRecipeVersion) -> Vec<u8>>(
    a: RecipeStore,
    b: RecipeStore,
    encode: F,
    m: HydratedRecipeModel,
)
    requires
        cache_sound(a, encode),
        a.keyed_by_hash(),
        b.recipes() == a.recipes().insert(m.depd_hash, m),
        b.eq_depd_cache() == a.eq_depd_cache(),
        b.equiv_cache() == a.equiv_cache(),
        b.equiv_db() == a.equiv_db(),
    ensures
        cache_sound(b, encode),
{
    assert forall|k: Seq<char>| #[trigger] b.equiv_cache().contains_key(k) implies output_entry_sound(b, k) by {
        assert(output_entry_sound(a, k));
    }
    assert forall|d: Seq<char>| #[trigger] b.eq_depd_cache().contains_key(d) implies eq_entry_sound(b, encode, d) by {
        assert(eq_entry_sound(a, encode, d));
        let n = choose|n: HydratedRecipeModel|
            n.depd_hash == d && #[trigger] eq_hash_of(a, encode, n, a.eq_depd_cache()[d]);
        let qd = a.eq_depd_cache()[d];
        let (hs, sub) = choose|hs: Seq<Seq<char>>, sub: HydratedRecipeModel|
            {
                &&& #[trigger] with_dep_hashes(n, hs, sub)
                &&& digest_of_encoding(encode, sub, qd)
                &&& forall|i: int| 0 <= i < hs.len() ==> #[trigger] a.resolves(n.deps[i].hash, hs[i])
            };
        assert forall|i: int| 0 <= i < hs.len() implies #[trigger] b.resolves(n.deps[i].hash, hs[i]) by {
            assert(a.resolves(n.deps[i].hash, hs[i]));
            let dh = n.deps[i].hash;
            if dh == m.depd_hash {
                assert(a.recipes()[dh].depd_hash == dh);
                assert(b.recipes()[dh] == m);
            } else {
                assert(b.recipes()[dh] == a.recipes()[dh]);
            }
        }
        assert(eq_hash_of(b, encode, n, qd));
    }
}

/// In sound caches, the build output known for a recipe is the one the
/// database records under the recipe's equivalence hash.
pub proof fn law_known_output_is_recorded<F: Fn(&HydratedRecipeVersion) -> Vec<u8>>(
    st: RecipeStore,
    encode: F,
    d: Seq<char>,
    e: Seq<char>,
)
    requires
        cache_sound(st, encode),
        st.resolves(d, e),
    ensures
        st.equiv_db().contains_key(key_bytes(st.eq_depd_cache()[st.recipes()[d].depd_hash])),
        st.equiv_db()[key_bytes(st.eq_depd_cache()[st.recipes()[d].depd_hash])] == key_bytes(e),
{
    assert(output_entry_sound(st, st.eq_depd_cache()[st.recipes()[d].depd_hash]));
}

/// What computing the equivalence hash of the recipe `m` does, from store
/// `before` to store `after`, answering `res`. A cached hash is answered
/// again and nothing changes. Otherwise, when every dependency resolves to a
/// build output, the answer is the digest of the encoding of `m` with each
/// dependency named by its output, and it is cached; when one does not, the
/// answer is `None`. The caches only grow, and only by sound entries.
pub open spec fn eq_depd_computed<F: Fn(&HydratedRecipeVersion) -> Vec<u8>>(
    before: RecipeStore,
    after: RecipeStore,
    encode: F,
    m: HydratedRecipeModel,
    res: Result<Option<EqDepdRecipeHash>, StoreError>,
) -> bool {
    let k = m.depd_hash;
    &&& before.grows_to(&after)
    &&& sound_growth(before, after, encode)
    &&& before.keyed_by_hash() && stored_as_itself(before, m) ==> stored_sound_growth(before, after, encode)
    &&& before.eq_depd_cache().contains_key(k) ==> {
        &&& res matches Ok(Some(h)) && h.deep_view() == before.eq_depd_cache()[k]
        &&& before.same_as(&after)
    }
    &&& res matches Ok(Some(h)) ==> after.eq_depd_cache().contains_key(k)
        && after.eq_depd_cache()[k] == h.deep_view()
    &&& !(res matches Ok(Some(_))) ==> !after.eq_depd_cache().contains_key(k)
    &&& !before.eq_depd_cache().contains_key(k) ==> (res matches Ok(Some(h)) ==> exists|
        hs: Seq<Seq<char>>,
        sub: HydratedRecipeModel,
    |
        {
            &&& #[trigger] with_dep_hashes(m, hs, sub)
            &&& forall|i: int| 0 <= i < hs.len() ==> #[trigger] after.resolves(m.deps[i].hash, hs[i])
            &&& digest_of_encoding(encode, sub, h.deep_view())
        })
    &&& res matches Ok(None) ==> exists|i: int|
        0 <= i < m.deps.len() && #[trigger] after.unresolved(m.deps[i].hash)
    &&& res is Err ==> exists|i: int|
        0 <= i < m.deps.len() && #[trigger] before.unresolved(m.deps[i].hash)
    &&& !(res matches Err(StoreError::UnknownRecipe))
}

/// The recipe stored under `d` has no build output to be found: it is not
/// stored, or its equivalence hash is known and no output is recorded for it.
pub open spec fn lacks_output(st: RecipeStore, d: Seq<char>) -> bool {
    ||| !st.recipes().contains_key(d)
    ||| {
        let k = st.recipes()[d].depd_hash;
        st.eq_depd_cache().contains_key(k) && output_missing(st, st.eq_depd_cache()[k])
    }
}

/// Some dependency of the recipe `m` has no build output to be found.
pub open spec fn some_dep_lacks_output(st: RecipeStore, m: HydratedRecipeModel) -> bool {
    exists|i: int| 0 <= i < m.deps.len() && #[trigger] lacks_output(st, m.deps[i].hash)
}

/// The equivalence hash of a recipe, not computed before, is not computed
/// while one of its dependencies has no build output to be found.
pub proof fn law_missing_dep_output_gives_no_hash<F: Fn(&HydratedRecipeVersion) -> Vec<u8>>(
    before: RecipeStore,
    after: RecipeStore,
    encode: F,
    m: HydratedRecipeModel,
    res: Result<Option<EqDepdRecipeHash>, StoreError>,
)
    requires
        eq_depd_computed(before, after, encode, m, res),
        !before.eq_depd_cache().contains_key(m.depd_hash),
        some_dep_lacks_output(before, m),
    ensures
        !(res matches Ok(Some(_))),
{
    match res {
        Ok(Some(h)) => {
            let i = choose|i: int| 0 <= i < m.deps.len() && #[trigger] lacks_output(before, m.deps[i].hash);
            let (hs, sub) = choose|hs: Seq<Seq<char>>, sub: HydratedRecipeModel|
                {
                    &&& #[trigger] with_dep_hashes(m, hs, sub)
                    &&& forall|j: int| 0 <= j < hs.len() ==> #[trigger] after.resolves(m.deps[j].hash, hs[j])
                    &&& digest_of_encoding(encode, sub, h.deep_view())
                };
            let d = m.deps[i].hash;
            assert(after.resolves(d, hs[i]));
            let k = before.recipes()[d].depd_hash;
            let q = before.eq_depd_cache()[k];
            assert(before.eq_depd_cache().dom().contains(k));
            assert(after.eq_depd_cache().dom().contains(k));
            assert(after.eq_depd_cache()[k] == q);
            assert(after.equiv_cache().contains_key(q));
            assert(output_entry_sound(after, q));
        },
        _ => {},
    }
}

/// No build output can be found for the recipe stored under `d`, following
/// at most `f` levels of dependencies (and claiming nothing of a cycle): it
/// is not stored; or its equivalence hash is known and no output is recorded
/// for it; or its equivalence hash is not known and one of its dependencies
/// has none.
pub open spec fn unbuildable(st: RecipeStore, d: Seq<char>, f: nat) -> bool
    decreases f, 0nat,
{
    if !st.recipes().contains_key(d) {
        true
    } else {
        let r = st.recipes()[d];
        if st.eq_depd_cache().contains_key(r.depd_hash) {
            output_missing(st, st.eq_depd_cache()[r.depd_hash])
        } else if f == 0 {
            false
        } else {
            any_unbuildable(st, r.deps, (f - 1) as nat)
        }
    }
}

/// Some dependency among `deps` has no build output to be found, following
/// at most `f` levels of dependencies.
pub open spec fn any_unbuildable(st: RecipeStore, deps: Seq<HydratedDepSpecModel>, f: nat) -> bool
    decreases f, deps.len() + 1,
{
    deps.len() > 0 && (unbuildable(st, deps.last().hash, f) || any_unbuildable(st, deps.drop_last(), f))
}

/// `any_unbuildable` holds exactly when some dependency in the list is
/// unbuildable.
proof fn lemma_any_unbuildable(st: RecipeStore, deps: Seq<HydratedDepSpecModel>, f: nat)
    ensures
        any_unbuildable(st, deps, f) <==> exists|i: int|
            0 <= i < deps.len() && #[trigger] unbuildable(st, deps[i].hash, f),
    decreases deps.len(),
{
    if deps.len() > 0 {
        lemma_any_unbuildable(st, deps.drop_last(), f);
        if any_unbuildable(st, deps, f) {
            if unbuildable(st, deps.last().hash, f) {
                assert(unbuildable(st, deps[deps.len() - 1].hash, f));
            } else {
                let i = choose|i: int|
                    0 <= i < deps.drop_last().len() && #[trigger] unbuildable(st, deps.drop_last()[i].hash, f);
                assert(deps[i] == deps.drop_last()[i]);
            }
        }
        if exists|i: int| 0 <= i < deps.len() && #[trigger] unbuildable(st, deps[i].hash, f) {
            let i = choose|i: int| 0 <= i < deps.len() && #[trigger] unbuildable(st, deps[i].hash, f);
            if i < deps.len() - 1 {
                assert(deps.drop_last()[i] == deps[i]);
            }
        }
    }
}

/// Some dependency of the recipe `m`, directly or through its own
/// dependencies, has no build output to be found.
pub open spec fn dep_unbuildable(st: RecipeStore, m: HydratedRecipeModel) -> bool {
    exists|i: int, f: nat| 0 <= i < m.deps.len() && #[trigger] unbuildable(st, m.deps[i].hash, f)
}

/// A recipe whose build output the caches of `c` know was not unbuildable
/// in `o`, when `c` grew soundly from `o`.
proof fn lemma_resolved_not_unbuildable<F: Fn(&HydratedRecipeVersion) -> Vec<u8>>(
    o: RecipeStore,
    c: RecipeStore,
    encode: F,
    d: Seq<char>,
    e: Seq<char>,
    f: nat,
)
    requires
        o.keyed_by_hash(),
        sound_growth(o, c, encode),
        stored_sound_growth(o, c, encode),
        c.resolves(d, e),
    ensures
        !unbuildable(o, d, f),
    decreases f,
{
    if unbuildable(o, d, f) {
        let r = o.recipes()[d];
        let k = r.depd_hash;
        assert(k == d);
        if o.eq_depd_cache().contains_key(k) {
            let q = o.eq_depd_cache()[k];
            assert(o.eq_depd_cache().dom().contains(k));
            assert(c.eq_depd_cache().dom().contains(k));
            assert(c.eq_depd_cache()[k] == q);
            assert(c.equiv_cache().contains_key(q));
            assert(output_entry_sound(c, q));
        } else {
            assert(o.recipes().contains_key(d));
            assert(f != 0);
            lemma_any_unbuildable(o, r.deps, (f - 1) as nat);
            let i = choose|i: int| 0 <= i < r.deps.len() && #[trigger] unbuildable(o, r.deps[i].hash, (f - 1) as nat);
            assert(c.recipes()[d] == r);
            assert(eq_hash_of(c, encode, r, c.eq_depd_cache()[k]));
            let (hs, sub) = choose|hs: Seq<Seq<char>>, sub: HydratedRecipeModel|
                {
                    &&& #[trigger] with_dep_hashes(r, hs, sub)
                    &&& digest_of_encoding(encode, sub, c.eq_depd_cache()[k])
                    &&& forall|j: int| 0 <= j < hs.len() ==> #[trigger] c.resolves(r.deps[j].hash, hs[j])
                };
            assert(hs.len() == r.deps.len());
            assert(c.resolves(r.deps[i].hash, hs[i]));
            lemma_resolved_not_unbuildable(o, c, encode, r.deps[i].hash, hs[i], (f - 1) as nat);
        }
    }
}

/// The equivalence hash of a recipe, not computed before, is not computed
/// while one of its dependencies, directly or through its own dependencies,
/// has no build output to be found; in a store whose recipes are stored
/// under their own hashes, for a recipe that is the one stored under its
/// hash, if any is.
pub proof fn law_unbuildable_dep_gives_no_hash<F: Fn(&HydratedRecipeVersion) -> Vec<u8>>(
    before: RecipeStore,
    after: RecipeStore,
    encode: F,
    m: HydratedRecipeModel,
    res: Result<Option<EqDepdRecipeHash>, StoreError>,
)
    requires
        eq_depd_computed(before, after, encode, m, res),
        before.keyed_by_hash(),
        stored_as_itself(before, m),
        !before.eq_depd_cache().contains_key(m.depd_hash),
        dep_unbuildable(before, m),
    ensures
        !(res matches Ok(Some(_))),
{
    match res {
        Ok(Some(h)) => {
            let (i, f) = choose|i: int, f: nat| 0 <= i < m.deps.len() && #[trigger] unbuildable(before, m.deps[i].hash, f);
            let (hs, sub) = choose|hs: Seq<Seq<char>>, sub: HydratedRecipeModel|
                {
                    &&& #[trigger] with_dep_hashes(m, hs, sub)
                    &&& forall|j: int| 0 <= j < hs.len() ==> #[trigger] after.resolves(m.deps[j].hash, hs[j])
                    &&& digest_of_encoding(encode, sub, h.deep_view())
                };
            assert(after.resolves(m.deps[i].hash, hs[i]));
            lemma_resolved_not_unbuildable(before, after, encode, m.deps[i].hash, hs[i], f);
        },
        _ => {},
    }
}

/// Every dependency of the recipe `m` has a build output known to the
/// caches of `st`.
pub open spec fn deps_resolved(st: RecipeStore, m: HydratedRecipeModel) -> bool {
    forall|i: int| 0 <= i < m.deps.len() ==> #[trigger] st.resolved(m.deps[i].hash)
}

/// A resolution stays true as the caches grow.
pub proof fn lemma_resolves_persists(a: RecipeStore, b: RecipeStore, depd: Seq<char>, e: Seq<char>)
    requires
        a.grows_to(&b),
        a.resolves(depd, e),
    ensures
        b.resolves(depd, e),
{
    let q = a.eq_depd_cache()[a.recipes()[depd].depd_hash];
    assert(b.eq_depd_cache().contains_key(a.recipes()[depd].depd_hash));
    assert(b.eq_depd_cache()[a.recipes()[depd].depd_hash] == q);
    assert(b.equiv_cache().contains_key(q));
}

/// Growth of the caches is transitive.
pub proof fn lemma_grows_to_trans(a: RecipeStore, b: RecipeStore, c: RecipeStore)
    requires
        a.grows_to(&b),
        b.grows_to(&c),
    ensures
        a.grows_to(&c),
{
    assert(a.eq_depd_cache().submap_of(c.eq_depd_cache())) by {
        assert forall|k: Seq<char>| #[trigger] a.eq_depd_cache().dom().contains(k) implies c.eq_depd_cache().dom().contains(k)
            && a.eq_depd_cache()[k] == c.eq_depd_cache()[k] by {
            assert(b.eq_depd_cache().dom().contains(k));
            assert(c.eq_depd_cache().dom().contains(k));
            assert(a.eq_depd_cache()[k] == b.eq_depd_cache()[k]);
            assert(b.eq_depd_cache()[k] == c.eq_depd_cache()[k]);
        }
    }
    assert(a.equiv_cache().submap_of(c.equiv_cache())) by {
        assert forall|k: Seq<char>| #[trigger] a.equiv_cache().dom().contains(k) implies c.equiv_cache().dom().contains(k)
            && a.equiv_cache()[k] == c.equiv_cache()[k] by {
            assert(b.equiv_cache().dom().contains(k));
            assert(c.equiv_cache().dom().contains(k));
            assert(a.equiv_cache()[k] == b.equiv_cache()[k]);
            assert(b.equiv_cache()[k] == c.equiv_cache()[k]);
        }
    }
}

/// A recipe whose equivalence hash a later store has not cached had no
/// known build output before.
proof fn lemma_uncached_unresolved(a: RecipeStore, b: RecipeStore, depd: Seq<char>)
    requires
        a.grows_to(&b),
        b.recipes().contains_key(depd),
        !b.eq_depd_cache().contains_key(b.recipes()[depd].depd_hash),
    ensures
        a.unresolved(depd),
{
    assert forall|e: Seq<char>| !#[trigger] a.resolves(depd, e) by {
        if a.resolves(depd, e) {
            assert(b.eq_depd_cache().contains_key(a.recipes()[depd].depd_hash));
        }
    }
}

/// A recipe whose equivalence hash a later store has cached, but not the
/// build output for it, had no known build output before.
proof fn lemma_unread_unresolved(a: RecipeStore, b: RecipeStore, depd: Seq<char>)
    requires
        a.grows_to(&b),
        b.recipes().contains_key(depd),
        b.eq_depd_cache().contains_key(b.recipes()[depd].depd_hash),
        !b.equiv_cache().contains_key(b.eq_depd_cache()[b.recipes()[depd].depd_hash]),
    ensures
        a.unresolved(depd),
{
    assert forall|e: Seq<char>| !#[trigger] a.resolves(depd, e) by {
        if a.resolves(depd, e) {
            let k = a.recipes()[depd].depd_hash;
            assert(b.eq_depd_cache()[k] == a.eq_depd_cache()[k]);
            assert(b.equiv_cache().contains_key(a.eq_depd_cache()[k]));
        }
    }
}

fn stack_holds(stack: &Vec<String>, key: &String) -> (res: bool)
    ensures
        res == views(stack@).contains(key@),
{
    let n = stack.len();
    for i in 0..n
        invariant
            n == stack@.len(),
            forall|j: int| 0 <= j < i ==> stack@[j]@ != key@,
    {
        if stack[i] == *key {
            assert(views(stack@)[i as int] == key@);
            return true;
        }
    }
    proof {
        if views(stack@).contains(key@) {
            let j = choose|j: int| 0 <= j < views(stack@).len() && views(stack@)[j] == key@;
            assert(stack@[j]@ == key@);
        }
    }
    false
}

/// Resolves every dependency of `recipe` to the hash of its build output:
/// the recipe stored under the dependency's hash, its equivalence hash, and
/// the build output recorded for that.
fn resolve_deps<F: Fn(&HydratedRecipeVersion) -> Vec<u8>>(
    store: &mut RecipeStore,
    recipe: &HydratedRecipeVersion,
    encode: &F,
    stack: &mut Vec<String>,
    fuel: u64,
) -> (res: Result<Option<Vec<HydratedDepSpec>>, StoreError>)
    requires
        forall|r: &HydratedRecipeVersion| encode.requires((r,)),
        off_cache(*old(store), views(old(stack)@)),
    ensures
        views(final(stack)@) == views(old(stack)@),
        old(store).grows_to(final(store)),
        sound_growth(*old(store), *final(store), *encode),
        old(store).keyed_by_hash() ==> stored_sound_growth(*old(store), *final(store), *encode),
        off_cache(*final(store), views(old(stack)@)),
        res matches Ok(Some(deps)) ==> {
            &&& deps@.len() == recipe.deps@.len()
            &&& forall|i: int|
                0 <= i < deps@.len() ==> #[trigger] final(store).resolves(
                    recipe.deps@[i].hash.deep_view(),
                    deps@[i].hash.deep_view(),
                )
            &&& forall|i: int|
                0 <= i < deps@.len() ==> (#[trigger] deps@[i]).from.deep_view()
                    == recipe.deps@[i].from.deep_view() && deps@[i].to.deep_view()
                    == recipe.deps@[i].to.deep_view()
        },
        res matches Ok(None) ==> exists|i: int|
            0 <= i < recipe.deps@.len() && #[trigger] final(store).unresolved(
                recipe.deps@[i].hash.deep_view(),
            ),
        res is Err ==> exists|i: int|
            0 <= i < recipe.deps@.len() && #[trigger] old(store).unresolved(
                recipe.deps@[i].hash.deep_view(),
            ),
        res matches Ok(None) ==> deps_blocked(
            *final(store),
            recipe.deep_view(),
            fuel as nat,
            views(old(stack)@),
        ),
        !(res matches Err(StoreError::UnknownRecipe)),
    decreases fuel, 0int,
{
    let ghost start = *store;
    let mut out: Vec<HydratedDepSpec> = Vec::new();
    let n = recipe.deps.len();
    for i in 0..n
        invariant
            n == recipe.deps@.len(),
            forall|r: &HydratedRecipeVersion| encode.requires((r,)),
            views(stack@) == views(old(stack)@),
            start == *old(store),
            start.grows_to(store),
            sound_growth(start, *store, *encode),
            start.keyed_by_hash() ==> stored_sound_growth(start, *store, *encode),
            off_cache(*store, views(stack@)),
            out@.len() == i,
            forall|j: int|
                0 <= j < i ==> #[trigger] store.resolves(
                    recipe.deps@[j].hash.deep_view(),
                    out@[j].hash.deep_view(),
                ),
            forall|j: int|
                0 <= j < i ==> (#[trigger] out@[j]).from.deep_view()
                    == recipe.deps@[j].from.deep_view() && out@[j].to.deep_view()
                    == recipe.deps@[j].to.deep_view(),
    {
        let ghost before_dep = *store;
        let dep = &recipe.deps[i];
        let ghost h = recipe.deps@[i as int].hash.deep_view();
        assert(recipe.deep_view().deps.len() == recipe.deps@.len());
        assert(recipe.deep_view().deps[i as int].hash == h);
        let stored = match store.recipe(&dep.hash) {
            Some(r) => r,
            None => {
                assert(store.unresolved(recipe.deps@[i as int].hash.deep_view()));
                assert(blocked(*store, h, fuel as nat, views(stack@)));
                proof {
                    lemma_dep_blocked(*store, recipe.deep_view(), fuel as nat, views(stack@), i as int);
                }
                return Ok(None);
            },
        };
        let q: String = match string_map_get(&store.eq_depd_cache, stored.depd_hash.0.as_str()) {
            Some(q) => q,
            None => {
                if fuel == 0 || stack_holds(stack, &stored.depd_hash.0) {
                    assert(store.unresolved(recipe.deps@[i as int].hash.deep_view()));
                    assert(blocked(*store, h, fuel as nat, views(stack@)));
                    proof {
                        lemma_dep_blocked(*store, recipe.deep_view(), fuel as nat, views(stack@), i as int);
                    }
                    return Ok(None);
                }
                let ghost under_way = views(stack@);
                let computed = eq_depd_of(store, &stored, encode, stack, fuel - 1);
                proof {
                    lemma_grows_to_trans(start, before_dep, *store);
                    lemma_sound_growth_trans(start, before_dep, *store, *encode);
                    if start.keyed_by_hash() {
                        assert(before_dep.recipes() == start.recipes());
                        assert(stored.deep_view() == before_dep.recipes()[h]);
                        assert(stored_as_itself(before_dep, stored.deep_view()));
                        lemma_stored_sound_growth_trans(start, before_dep, *store, *encode);
                    }
                    assert forall|j: int| 0 <= j < i implies #[trigger] store.resolves(
                        recipe.deps@[j].hash.deep_view(),
                        out@[j].hash.deep_view(),
                    ) by {
                        lemma_resolves_persists(
                            before_dep,
                            *store,
                            recipe.deps@[j].hash.deep_view(),
                            out@[j].hash.deep_view(),
                        );
                    }
                }
                match computed {
                    Err(e) => {
                        proof {
                            lemma_uncached_unresolved(
                                start,
                                before_dep,
                                recipe.deps@[i as int].hash.deep_view(),
                            );
                        }
                        return Err(e);
                    },
                    Ok(None) => {
                        assert(store.unresolved(recipe.deps@[i as int].hash.deep_view()));
                        proof {
                            let m = stored.deep_view();
                            let w = under_way.push(m.depd_hash);
                            assert(store.recipes()[h] == m);
                            assert(!store.eq_depd_cache().contains_key(m.depd_hash));
                            assert(!under_way.contains(m.depd_hash));
                            assert(deps_blocked(*store, m, (fuel - 1) as nat, w));
                            lemma_any_blocked(*store, m.deps, (fuel - 1) as nat, w);
                            let j = choose|j: int|
                                0 <= j < m.deps.len() && #[trigger] blocked(
                                    *store,
                                    m.deps[j].hash,
                                    (fuel - 1) as nat,
                                    w,
                                );
                            assert(store.recipes().contains_key(h));
                            lemma_blocked_by_dep(*store, h, fuel as nat, under_way, j);
                            lemma_dep_blocked(*store, recipe.deep_view(), fuel as nat, under_way, i as int);
                        }
                        return Ok(None);
                    },
                    Ok(Some(h)) => h.0,
                }
            },
        };
        assert(store.eq_depd_cache()[stored.depd_hash.deep_view()] == q@);
        let ghost before_equiv = *store;
        let looked = get_equiv_hash_from_eq_depd(store, &EqDepdRecipeHash(q));
        proof {
            lemma_grows_to_trans(start, before_equiv, *store);
            lemma_equiv_read_sound(before_equiv, *store, *encode, q@, looked);
            lemma_sound_growth_trans(start, before_equiv, *store, *encode);
            if start.keyed_by_hash() {
                assert(store.eq_depd_cache() =~= before_equiv.eq_depd_cache());
                assert(stored_sound_growth(before_equiv, *store, *encode));
                lemma_stored_sound_growth_trans(start, before_equiv, *store, *encode);
            }
            assert forall|j: int| 0 <= j < i implies #[trigger] store.resolves(
                recipe.deps@[j].hash.deep_view(),
                out@[j].hash.deep_view(),
            ) by {
                lemma_resolves_persists(
                    before_equiv,
                    *store,
                    recipe.deps@[j].hash.deep_view(),
                    out@[j].hash.deep_view(),
                );
            }
        }
        let e = match looked {
            Err(err) => {
                proof {
                    lemma_unread_unresolved(
                        start,
                        before_equiv,
                        recipe.deps@[i as int].hash.deep_view(),
                    );
                }
                return Err(err);
            },
            Ok(None) => {
                assert(store.unresolved(recipe.deps@[i as int].hash.deep_view()));
                assert(!before_equiv.equiv_cache().contains_key(q@));
                assert(output_missing(*store, q@));
                assert(blocked(*store, h, fuel as nat, views(stack@)));
                proof {
                    lemma_dep_blocked(*store, recipe.deep_view(), fuel as nat, views(stack@), i as int);
                }
                return Ok(None);
            },
            Ok(Some(e)) => e,
        };
        assert(store.resolves(recipe.deps@[i as int].hash.deep_view(), e.deep_view()));
        let from = dep.from.duplicate();
        let to = dep.to.duplicate();
        out.push(HydratedDepSpec { hash: DepdRecipeHash(e.0), from, to });
    }
    Ok(Some(out))
}

/// Computes the equivalence hash of `recipe`, caching it. `stack` holds the
/// hashes of the recipes whose computation is under way.
fn eq_depd_of<F: Fn(&HydratedRecipeVersion) -> Vec<u8>>(
    store: &mut RecipeStore,
    recipe: &HydratedRecipeVersion,
    encode: &F,
    stack: &mut Vec<String>,
    fuel: u64,
) -> (res: Result<Option<EqDepdRecipeHash>, StoreError>)
    requires
        forall|r: &HydratedRecipeVersion| encode.requires((r,)),
        off_cache(*old(store), views(old(stack)@)),
        !views(old(stack)@).contains(recipe.depd_hash.deep_view()),
    ensures
        views(final(stack)@) == views(old(stack)@),
        off_cache(*final(store), views(old(stack)@)),
        eq_depd_computed(*old(store), *final(store), *encode, recipe.deep_view(), res),
        res matches Ok(None) ==> deps_blocked(
            *final(store),
            recipe.deep_view(),
            fuel as nat,
            views(old(stack)@).push(recipe.depd_hash.deep_view()),
        ),
    decreases fuel, 1int,
{
    let key = recipe.depd_hash.0.clone();
    match string_map_get(&store.eq_depd_cache, key.as_str()) {
        Some(h) => {
            return Ok(Some(EqDepdRecipeHash(h)));
        },
        None => {},
    }
    let ghost start = *store;
    let ghost old_stack = views(stack@);
    stack.push(key.clone());
    assert(views(stack@) =~= old_stack.push(key@));
    let resolved = resolve_deps(store, recipe, encode, stack, fuel);
    let ghost pushed = stack@;
    assert(views(pushed) == old_stack.push(key@));
    stack.pop();
    assert(stack@ =~= pushed.drop_last());
    assert forall|j: int| 0 <= j < old_stack.len() implies views(stack@)[j] == old_stack[j] by {
        assert(views(pushed)[j] == pushed[j]@);
        assert(old_stack.push(key@)[j] == old_stack[j]);
    }
    assert(views(stack@) =~= old_stack);
    assert(off_cache(*store, old_stack)) by {
        assert forall|i: int| 0 <= i < old_stack.len() implies !store.eq_depd_cache().contains_key(#[trigger] old_stack[i]) by {
            assert(old_stack.push(key@)[i] == old_stack[i]);
        }
    }
    assert(!store.eq_depd_cache().contains_key(key@)) by {
        assert(old_stack.push(key@)[old_stack.len() as int] == key@);
    }
    match resolved {
        Err(e) => {
            proof {
                let i = choose|i: int|
                    0 <= i < recipe.deps@.len() && #[trigger] start.unresolved(
                        recipe.deps@[i].hash.deep_view(),
                    );
                assert(recipe.deep_view().deps[i].hash == recipe.deps@[i].hash.deep_view());
            }
            Err(e)
        },
        Ok(None) => {
            proof {
                let i = choose|i: int|
                    0 <= i < recipe.deps@.len() && #[trigger] store.unresolved(
                        recipe.deps@[i].hash.deep_view(),
                    );
                assert(recipe.deep_view().deps[i].hash == recipe.deps@[i].hash.deep_view());
            }
            Ok(None)
        },
        Ok(Some(deps)) => {
            let ghost hs = deps.deep_view().map_values(|d: HydratedDepSpecModel| d.hash);
            let mut sub = recipe.duplicate();
            sub.deps = deps;
            let h = encode_digest(&sub, encode);
            let ghost mid = *store;
            string_map_insert(&mut store.eq_depd_cache, key, h.clone());
            proof {
                assert(mid.grows_to(store));
                lemma_grows_to_trans(start, mid, *store);
                assert forall|i: int| 0 <= i < hs.len() implies #[trigger] store.resolves(
                    recipe.deep_view().deps[i].hash,
                    hs[i],
                ) by {
                    assert(mid.resolves(recipe.deps@[i].hash.deep_view(), sub.deps@[i].hash.deep_view()));
                    lemma_resolves_persists(mid, *store, recipe.deps@[i].hash.deep_view(), hs[i]);
                }
                assert(sub.deep_view().deps =~= Seq::new(
                    recipe.deep_view().deps.len(),
                    |i: int| HydratedDepSpecModel { hash: hs[i], from: recipe.deep_view().deps[i].from, to: recipe.deep_view().deps[i].to },
                ));
                assert(with_dep_hashes(recipe.deep_view(), hs, sub.deep_view()));
                assert(eq_hash_of(*store, *encode, recipe.deep_view(), h@));
                assert(store.eq_depd_cache()[key@] == h@);
                assert(eq_entry_sound(*store, *encode, key@));
                assert(store.equiv_cache() == mid.equiv_cache());
                assert forall|d: Seq<char>|
                    #[trigger] store.eq_depd_cache().contains_key(d) && !mid.eq_depd_cache().contains_key(d)
                        implies eq_entry_sound(*store, *encode, d) by {
                    assert(d == key@);
                }
                assert(sound_growth(mid, *store, *encode));
                lemma_sound_growth_trans(start, mid, *store, *encode);
                if start.keyed_by_hash() && stored_as_itself(start, recipe.deep_view()) {
                    assert(stored_sound_growth(mid, *store, *encode)) by {
                        assert forall|d: Seq<char>|
                            #[trigger] store.eq_depd_cache().contains_key(d) && !mid.eq_depd_cache().contains_key(d)
                                && store.recipes().contains_key(d) implies eq_hash_of(
                            *store,
                            *encode,
                            store.recipes()[d],
                            store.eq_depd_cache()[d],
                        ) by {
                            assert(d == key@);
                            assert(store.recipes()[d] == recipe.deep_view());
                        }
                    }
                    lemma_stored_sound_growth_trans(start, mid, *store, *encode);
                }
                assert(off_cache(*store, old_stack)) by {
                    assert forall|i: int| 0 <= i < old_stack.len() implies !store.eq_depd_cache().contains_key(#[trigger] old_stack[i]) by {
                        assert(old_stack[i] != key@);
                        assert(old_stack.push(key@)[i] == old_stack[i]);
                        assert(!mid.eq_depd_cache().contains_key(old_stack.push(key@)[i]));
                    }
                }
            }
            Ok(Some(EqDepdRecipeHash(h)))
        },
    }
}

/// The equivalence hash of `recipe`: the SHA-256 digest of the encoding of
/// `recipe` with each dependency named by the hash of its build output.
pub fn get_eq_depd_hash_from_recipe<F: Fn(&HydratedRecipeVersion) -> Vec<u8>>(
    store: &mut RecipeStore,
    recipe: &HydratedRecipeVersion,
    encode: &F,
) -> (res: Result<Option<EqDepdRecipeHash>, StoreError>)
    requires
        forall|r: &HydratedRecipeVersion| encode.requires((r,)),
    ensures
        eq_depd_computed(*old(store), *final(store), *encode, recipe.deep_view(), res),
        res matches Ok(None) ==> eq_hash_blocked(*final(store), recipe.deep_view()),
        !old(store).eq_depd_cache().contains_key(recipe.deep_view().depd_hash) && some_dep_lacks_output(
            *old(store),
            recipe.deep_view(),
        ) ==> !(res matches Ok(Some(_))),
        old(store).keyed_by_hash() && stored_as_itself(*old(store), recipe.deep_view())
            && !old(store).eq_depd_cache().contains_key(recipe.deep_view().depd_hash) && dep_unbuildable(
            *old(store),
            recipe.deep_view(),
        ) ==> !(res matches Ok(Some(_))),
{
    let ghost start = *store;
    let mut stack: Vec<String> = Vec::new();
    assert(views(stack@) =~= Seq::<Seq<char>>::empty());
    assert(views(stack@).push(recipe.depd_hash.deep_view()) =~= seq![recipe.deep_view().depd_hash]);
    let res = eq_depd_of(store, recipe, encode, &mut stack, u64::MAX);
    proof {
        if !start.eq_depd_cache().contains_key(recipe.deep_view().depd_hash) && some_dep_lacks_output(
            start,
            recipe.deep_view(),
        ) {
            law_missing_dep_output_gives_no_hash(start, *store, *encode, recipe.deep_view(), res);
        }
        if start.keyed_by_hash() && stored_as_itself(start, recipe.deep_view())
            && !start.eq_depd_cache().contains_key(recipe.deep_view().depd_hash) && dep_unbuildable(
            start,
            recipe.deep_view(),
        ) {
            law_unbuildable_dep_gives_no_hash(start, *store, *encode, recipe.deep_view(), res);
        }
    }
    res
}

/// What asking for the build output of the recipe `m` does, from store
/// `before` to store `after`, answering `res`: the caches only grow; an
/// output found is the one the caches now hold for `m`; `None` means the
/// caches hold none; when the equivalence hash of `m` is cached, the
/// answer is read for it as `equiv_read` says; and an output the caches
/// already held for `m` is answered again.
pub open spec fn equiv_of_recipe_read(
    before: RecipeStore,
    after: RecipeStore,
    m: HydratedRecipeModel,
    res: Result<Option<EquivHash>, StoreError>,
) -> bool {
    &&& before.grows_to(&after)
    &&& res matches Ok(Some(e)) ==> after.recipe_resolves(m, e.deep_view())
    &&& res matches Ok(None) ==> forall|e: Seq<char>| !#[trigger] after.recipe_resolves(m, e)
    &&& before.eq_depd_cache().contains_key(m.depd_hash) ==> equiv_read(
        before,
        after,
        before.eq_depd_cache()[m.depd_hash],
        res,
    )
    &&& forall|e: Seq<char>|
        #[trigger] before.recipe_resolves(m, e) ==> (res matches Ok(Some(x)) && x.deep_view() == e)
    &&& res matches Ok(None) ==> recipe_no_output(after, m)
}

/// The answer of reading the build output for the answer `first` of
/// computing an equivalence hash, from store `mid` to store `after`: a
/// failure or no hash is answered as it is and changes nothing; a hash is
/// read as `equiv_read` says.
pub open spec fn equiv_composed(
    mid: RecipeStore,
    after: RecipeStore,
    first: Result<Option<EqDepdRecipeHash>, StoreError>,
    res: Result<Option<EquivHash>, StoreError>,
) -> bool {
    match first {
        Err(e) => res == Err::<Option<EquivHash>, StoreError>(e) && mid.same_as(&after),
        Ok(None) => res matches Ok(None) && mid.same_as(&after),
        Ok(Some(q)) => equiv_read(mid, after, q.deep_view(), res),
    }
}

/// The build output of `recipe`: the output recorded for its equivalence hash.
pub fn get_equiv_hash_from_recipe<F: Fn(&HydratedRecipeVersion) -> Vec<u8>>(
    store: &mut RecipeStore,
    recipe: &HydratedRecipeVersion,
    encode: &F,
) -> (res: Result<Option<EquivHash>, StoreError>)
    requires
        forall|r: &HydratedRecipeVersion| encode.requires((r,)),
    ensures
        equiv_of_recipe_read(*old(store), *final(store), recipe.deep_view(), res),
        sound_growth(*old(store), *final(store), *encode),
        exists|mid: RecipeStore, first: Result<Option<EqDepdRecipeHash>, StoreError>|
            #[trigger] eq_depd_computed(*old(store), mid, *encode, recipe.deep_view(), first)
                && equiv_composed(mid, *final(store), first, res),
{
    let ghost start = *store;
    let first = get_eq_depd_hash_from_recipe(store, recipe, encode);
    let ghost first_store = *store;
    assert(eq_depd_computed(start, first_store, *encode, recipe.deep_view(), first));
    proof {
        lemma_grows_to_refl(first_store);
    }
    let q = match first {
        Err(e) => {
            return Err(e);
        },
        Ok(None) => {
            return Ok(None);
        },
        Ok(Some(q)) => q,
    };
    let ghost mid = *store;
    let res = get_equiv_hash_from_eq_depd(store, &q);
    proof {
        lemma_grows_to_trans(start, mid, *store);
        lemma_equiv_read_sound(mid, *store, *encode, q.deep_view(), res);
        lemma_sound_growth_trans(start, mid, *store, *encode);
        if start.eq_depd_cache().contains_key(recipe.deep_view().depd_hash) {
            assert(start.same_as(&mid));
            assert(q.deep_view() == start.eq_depd_cache()[recipe.deep_view().depd_hash]);
        }
        if res matches Ok(None) {
            assert(!mid.equiv_cache().contains_key(q.deep_view()));
            assert(store.eq_depd_cache()[recipe.deep_view().depd_hash] == q.deep_view());
            assert(output_missing(*store, q.deep_view()));
        }
    }
    res
}

/// What asking for the build output of the recipe stored under `h` does,
/// from store `before` to store `after`, answering `res`: nothing for a
/// recipe not stored, which leaves the store as it was; otherwise as
/// `equiv_of_recipe_read` says, and as computing the recipe's equivalence
/// hash and then reading the output recorded for it do.
pub open spec fn equiv_by_hash<F: Fn(&HydratedRecipeVersion) -> Vec<u8>>(
    before: RecipeStore,
    after: RecipeStore,
    encode: F,
    h: Seq<char>,
    res: Result<Option<EquivHash>, StoreError>,
) -> bool {
    &&& before.grows_to(&after)
    &&& sound_growth(before, after, encode)
    &&& (!before.recipes().contains_key(h) ==> before.same_as(&after))
    &&& before.recipes().contains_key(h) ==> exists|
        mid: RecipeStore,
        first: Result<Option<EqDepdRecipeHash>, StoreError>,
    |
        #[trigger] eq_depd_computed(before, mid, encode, before.recipes()[h], first)
            && equiv_composed(mid, after, first, res)
    &&& (res matches Ok(Some(e)) ==> after.resolves(h, e.deep_view()))
    &&& (res matches Ok(None) ==> after.unresolved(h))
    &&& (!before.recipes().contains_key(h) ==> (res matches Ok(None)))
    &&& before.recipes().contains_key(h) ==> equiv_of_recipe_read(
        before,
        after,
        before.recipes()[h],
        res,
    )
    &&& forall|e: Seq<char>|
        #[trigger] before.resolves(h, e) ==> (res matches Ok(Some(x)) && x.deep_view() == e)
    &&& (res matches Ok(None) ==> no_output(after, h))
}

/// The build output of the recipe stored under `recipe_hash`.
pub fn get_equiv_hash_from_depd_hash<F: Fn(&HydratedRecipeVersion) -> Vec<u8>>(
    store: &mut RecipeStore,
    recipe_hash: &DepdRecipeHash,
    encode: &F,
) -> (res: Result<Option<EquivHash>, StoreError>)
    requires
        forall|r: &HydratedRecipeVersion| encode.requires((r,)),
    ensures
        equiv_by_hash(*old(store), *final(store), *encode, recipe_hash.deep_view(), res),
{
    let recipe = match store.recipe(recipe_hash) {
        None => {
            return Ok(None);
        },
        Some(r) => r,
    };
    get_equiv_hash_from_recipe(store, &recipe, encode)
}

/// Whether the build output of the recipe stored under `recipe_hash` is known.
pub fn test_eq_hash_from_depd_hash<F: Fn(&HydratedRecipeVersion) -> Vec<u8>>(
    store: &mut RecipeStore,
    recipe_hash: &DepdRecipeHash,
    encode: &F,
) -> (res: Result<bool, StoreError>)
    requires
        forall|r: &HydratedRecipeVersion| encode.requires((r,)),
    ensures
        old(store).grows_to(final(store)),
        res matches Ok(true) ==> exists|e: Seq<char>|
            #[trigger] final(store).resolves(recipe_hash.deep_view(), e),
        res matches Ok(false) ==> final(store).unresolved(recipe_hash.deep_view()),
        old(store).resolved(recipe_hash.deep_view()) ==> res matches Ok(true),
        !old(store).recipes().contains_key(recipe_hash.deep_view()) ==> res matches Ok(false),
        res matches Ok(false) ==> no_output(*final(store), recipe_hash.deep_view()),
        exists|r: Result<Option<EquivHash>, StoreError>|
            #[trigger] equiv_by_hash(*old(store), *final(store), *encode, recipe_hash.deep_view(), r)
                && res == match r {
                Ok(found) => Ok::<bool, StoreError>(found is Some),
                Err(e) => Err(e),
            },
{
    let r = get_equiv_hash_from_depd_hash(store, recipe_hash, encode);
    match r {
        Err(e) => Err(e),
        Ok(found) => Ok(found.is_some()),
    }
}

/// The equivalence hash of the recipe stored under `recipe_hash`.
pub fn get_eq_depd_hash_from_depd_hash<F: Fn(&HydratedRecipeVersion) -> Vec<u8>>(
    store: &mut RecipeStore,
    recipe_hash: &DepdRecipeHash,
    encode: &F,
) -> (res: Result<Option<EqDepdRecipeHash>, StoreError>)
    requires
        forall|r: &HydratedRecipeVersion| encode.requires((r,)),
    ensures
        !old(store).recipes().contains_key(recipe_hash.deep_view()) ==> (res matches Ok(None)
            && old(store).same_as(final(store))),
        old(store).recipes().contains_key(recipe_hash.deep_view()) ==> eq_depd_computed(
            *old(store),
            *final(store),
            *encode,
            old(store).recipes()[recipe_hash.deep_view()],
            res,
        ),
        res matches Ok(None) ==> (old(store).recipes().contains_key(recipe_hash.deep_view())
            ==> eq_hash_blocked(*final(store), old(store).recipes()[recipe_hash.deep_view()])),
{
    let recipe = match store.recipe(recipe_hash) {
        None => {
            return Ok(None);
        },
        Some(r) => r,
    };
    get_eq_depd_hash_from_recipe(store, &recipe, encode)
}

/// The hash naming a build output: the SHA-256 digest of its bytes.
pub fn equiv_hash_of_archive(contents: &[u8]) -> (res: EquivHash)
    ensures
        res.deep_view() == sha256_hex(contents@),
        is_digest_text(res.deep_view()),
{
    EquivHash(sha256_digest(contents))
}

/// A build output `e` was recorded for the recipe stored under `h`, from
/// store `before` to store `after`: the database now maps the equivalence
/// hash of that recipe to `e`, and is otherwise as it was.
pub open spec fn build_recorded(before: RecipeStore, after: RecipeStore, h: Seq<char>, e: Seq<char>) -> bool {
    &&& after.recipes() == before.recipes()
    &&& after.recipes().contains_key(h)
    &&& after.eq_depd_cache().contains_key(after.recipes()[h].depd_hash)
    &&& after.equiv_db() == before.equiv_db().insert(
        key_bytes(after.eq_depd_cache()[after.recipes()[h].depd_hash]),
        key_bytes(e),
    )
    &&& before.eq_depd_cache().submap_of(after.eq_depd_cache())
    &&& before.equiv_cache().submap_of(after.equiv_cache())
}

/// What recording the build output `e` does once computing the recipe's
/// equivalence hash answered `first`, from store `mid` to store `after`,
/// answering `res`: a failure is answered as it is and no hash is refused,
/// both leaving the database as it was; a hash is the key under which `e` is
/// written, and a failed write is a database error. The caches and recipes
/// stay as they are.
pub open spec fn recorded_after(
    mid: RecipeStore,
    after: RecipeStore,
    first: Result<Option<EqDepdRecipeHash>, StoreError>,
    e: Seq<char>,
    res: Result<(), StoreError>,
) -> bool {
    &&& after.recipes() == mid.recipes()
    &&& after.eq_depd_cache() == mid.eq_depd_cache()
    &&& after.equiv_cache() == mid.equiv_cache()
    &&& match first {
        Err(x) => res == Err::<(), StoreError>(x) && after.equiv_db() == mid.equiv_db(),
        Ok(None) => res matches Err(StoreError::UnknownRecipe) && after.equiv_db() == mid.equiv_db(),
        Ok(Some(q)) => match res {
            Ok(()) => after.equiv_db() == mid.equiv_db().insert(key_bytes(q.deep_view()), key_bytes(e)),
            Err(x) => x == StoreError::Database,
        },
    }
}

/// Writing the build output `e` under the equivalence hash `q` keeps sound
/// caches sound, when no other output is cached for `q`.
proof fn lemma_record_keeps_sound<F: Fn(&HydratedRecipeVersion) -> Vec<u8>>(
    mid: RecipeStore,
    after: RecipeStore,
    encode: F,
    q: Seq<char>,
    e: Seq<char>,
)
    requires
        cache_sound(mid, encode),
        after.recipes() == mid.recipes(),
        after.eq_depd_cache() == mid.eq_depd_cache(),
        after.equiv_cache() == mid.equiv_cache(),
        after.equiv_db() == mid.equiv_db().insert(key_bytes(q), key_bytes(e)),
        after.equiv_cache().contains_key(q) ==> after.equiv_cache()[q] == e,
    ensures
        cache_sound(after, encode),
{
    assert forall|k: Seq<char>| #[trigger] after.equiv_cache().contains_key(k) implies output_entry_sound(after, k) by {
        if k != q {
            vstd::utf8::encode_utf8_decode_utf8(k);
            vstd::utf8::encode_utf8_decode_utf8(q);
            assert(key_bytes(k) != key_bytes(q));
            assert(output_entry_sound(mid, k));
        }
    }
    assert forall|d: Seq<char>| #[trigger] after.eq_depd_cache().contains_key(d) implies eq_entry_sound(after, encode, d) by {
        assert(eq_entry_sound(mid, encode, d));
        let m = choose|m: HydratedRecipeModel|
            m.depd_hash == d && #[trigger] eq_hash_of(mid, encode, m, mid.eq_depd_cache()[d]);
        let qd = mid.eq_depd_cache()[d];
        let (hs, sub) = choose|hs: Seq<Seq<char>>, sub: HydratedRecipeModel|
            {
                &&& #[trigger] with_dep_hashes(m, hs, sub)
                &&& digest_of_encoding(encode, sub, qd)
                &&& forall|i: int| 0 <= i < hs.len() ==> #[trigger] mid.resolves(m.deps[i].hash, hs[i])
            };
        assert forall|i: int| 0 <= i < hs.len() implies #[trigger] after.resolves(m.deps[i].hash, hs[i]) by {
            assert(mid.resolves(m.deps[i].hash, hs[i]));
        }
        assert(eq_hash_of(after, encode, m, qd));
    }
}

/// Caches equal in every respect are sound together.
proof fn lemma_same_sound<F: Fn(&HydratedRecipeVersion) -> Vec<u8>>(a: RecipeStore, b: RecipeStore, encode: F)
    requires
        cache_sound(a, encode),
        a.same_as(&b),
    ensures
        cache_sound(b, encode),
{
    assert forall|k: Seq<char>| #[trigger] b.equiv_cache().contains_key(k) implies output_entry_sound(b, k) by {
        assert(output_entry_sound(a, k));
    }
    assert forall|d: Seq<char>| #[trigger] b.eq_depd_cache().contains_key(d) implies eq_entry_sound(b, encode, d) by {
        assert(eq_entry_sound(a, encode, d));
        let m = choose|m: HydratedRecipeModel|
            m.depd_hash == d && #[trigger] eq_hash_of(a, encode, m, a.eq_depd_cache()[d]);
        let qd = a.eq_depd_cache()[d];
        let (hs, sub) = choose|hs: Seq<Seq<char>>, sub: HydratedRecipeModel|
            {
                &&& #[trigger] with_dep_hashes(m, hs, sub)
                &&& digest_of_encoding(encode, sub, qd)
                &&& forall|i: int| 0 <= i < hs.len() ==> #[trigger] a.resolves(m.deps[i].hash, hs[i])
            };
        assert forall|i: int| 0 <= i < hs.len() implies #[trigger] b.resolves(m.deps[i].hash, hs[i]) by {
            assert(a.resolves(m.deps[i].hash, hs[i]));
        }
        assert(eq_hash_of(b, encode, m, qd));
    }
}

/// No other build output than `e` is cached for the equivalence hash that
/// `st` knows for the recipe stored under `h`.
pub open spec fn output_uncontested(st: RecipeStore, h: Seq<char>, e: Seq<char>) -> bool {
    let q = st.eq_depd_cache()[st.recipes()[h].depd_hash];
    st.equiv_cache().contains_key(q) ==> st.equiv_cache()[q] == e
}

/// Records `equiv` as the build output of the recipe stored under
/// `recipe_hash`, under the recipe's equivalence hash.
pub fn record_equiv<F: Fn(&HydratedRecipeVersion) -> Vec<u8>>(
    store: &mut RecipeStore,
    recipe_hash: &DepdRecipeHash,
    equiv: &EquivHash,
    encode: &F,
) -> (res: Result<(), StoreError>)
    requires
        forall|r: &HydratedRecipeVersion| encode.requires((r,)),
    ensures
        res is Ok ==> build_recorded(
            *old(store),
            *final(store),
            recipe_hash.deep_view(),
            equiv.deep_view(),
        ),
        res matches Err(StoreError::UnknownRecipe) ==> {
            &&& old(store).grows_to(final(store))
            &&& (!final(store).recipes().contains_key(recipe_hash.deep_view()) || eq_hash_blocked(
                *final(store),
                final(store).recipes()[recipe_hash.deep_view()],
            ))
        },
        final(store).recipes() == old(store).recipes(),
        old(store).eq_depd_cache().submap_of(final(store).eq_depd_cache()),
        old(store).equiv_cache().submap_of(final(store).equiv_cache()),
        !old(store).recipes().contains_key(recipe_hash.deep_view()) ==> res matches Err(
            StoreError::UnknownRecipe,
        ),
        old(store).recipes().contains_key(recipe_hash.deep_view()) && deps_resolved(
            *old(store),
            old(store).recipes()[recipe_hash.deep_view()],
        ) ==> (res is Ok || res matches Err(StoreError::Database)),
        !old(store).recipes().contains_key(recipe_hash.deep_view()) ==> old(store).same_as(
            final(store),
        ),
        old(store).recipes().contains_key(recipe_hash.deep_view()) ==> exists|
            mid: RecipeStore,
            first: Result<Option<EqDepdRecipeHash>, StoreError>,
        |
            #[trigger] eq_depd_computed(
                *old(store),
                mid,
                *encode,
                old(store).recipes()[recipe_hash.deep_view()],
                first,
            ) && recorded_after(mid, *final(store), first, equiv.deep_view(), res),
        cache_sound(*old(store), *encode) && final(store).equiv_db() == old(store).equiv_db()
            ==> cache_sound(*final(store), *encode),
        old(store).recipes().contains_key(recipe_hash.deep_view()) && !old(store).eq_depd_cache().contains_key(
            old(store).recipes()[recipe_hash.deep_view()].depd_hash,
        ) && some_dep_lacks_output(*old(store), old(store).recipes()[recipe_hash.deep_view()]) ==> {
            &&& res is Err
            &&& final(store).equiv_db() == old(store).equiv_db()
        },
        old(store).keyed_by_hash() && old(store).recipes().contains_key(recipe_hash.deep_view())
            && !old(store).eq_depd_cache().contains_key(
            old(store).recipes()[recipe_hash.deep_view()].depd_hash,
        ) && dep_unbuildable(*old(store), old(store).recipes()[recipe_hash.deep_view()]) ==> {
            &&& res is Err
            &&& final(store).equiv_db() == old(store).equiv_db()
        },
        cache_sound(*old(store), *encode) && res is Ok && output_uncontested(
            *final(store),
            recipe_hash.deep_view(),
            equiv.deep_view(),
        ) ==> cache_sound(*final(store), *encode),
{
    let ghost start = *store;
    let computed = get_eq_depd_hash_from_depd_hash(store, recipe_hash, encode);
    proof {
        if cache_sound(start, *encode) {
            if start.recipes().contains_key(recipe_hash.deep_view()) {
                law_sound_growth_keeps_caches_sound(start, *store, *encode);
            } else {
                lemma_same_sound(start, *store, *encode);
            }
        }
        if start.recipes().contains_key(recipe_hash.deep_view()) && deps_resolved(
            start,
            start.recipes()[recipe_hash.deep_view()],
        ) {
            law_ready_recipe_gets_hash(
                start,
                *store,
                *encode,
                start.recipes()[recipe_hash.deep_view()],
                computed,
            );
        }
    }
    proof {
        if start.recipes().contains_key(recipe_hash.deep_view()) && !start.eq_depd_cache().contains_key(
            start.recipes()[recipe_hash.deep_view()].depd_hash,
        ) && some_dep_lacks_output(start, start.recipes()[recipe_hash.deep_view()]) {
            law_missing_dep_output_gives_no_hash(
                start,
                *store,
                *encode,
                start.recipes()[recipe_hash.deep_view()],
                computed,
            );
        }
        if start.keyed_by_hash() && start.recipes().contains_key(recipe_hash.deep_view())
            && !start.eq_depd_cache().contains_key(start.recipes()[recipe_hash.deep_view()].depd_hash)
            && dep_unbuildable(start, start.recipes()[recipe_hash.deep_view()]) {
            assert(stored_as_itself(start, start.recipes()[recipe_hash.deep_view()]));
            law_unbuildable_dep_gives_no_hash(
                start,
                *store,
                *encode,
                start.recipes()[recipe_hash.deep_view()],
                computed,
            );
        }
    }
    let q = match computed {
        Err(e) => {
            return Err(e);
        },
        Ok(None) => {
            return Err(StoreError::UnknownRecipe);
        },
        Ok(Some(q)) => q,
    };
    let ghost mid = *store;
    match sled_insert(&mut store.equiv_db, q.0.as_str().as_bytes(), equiv.0.as_str().as_bytes()) {
        Ok(()) => {
            assert(mid.eq_depd_cache() == store.eq_depd_cache());
            proof {
                if cache_sound(start, *encode) && output_uncontested(
                    *store,
                    recipe_hash.deep_view(),
                    equiv.deep_view(),
                ) {
                    lemma_record_keeps_sound(mid, *store, *encode, q.deep_view(), equiv.deep_view());
                }
                if cache_sound(start, *encode) && store.equiv_db() == start.equiv_db() {
                    lemma_same_sound(mid, *store, *encode);
                }
            }
            Ok(())
        },
        Err(_) => {
            proof {
                if cache_sound(start, *encode) && store.equiv_db() == start.equiv_db() {
                    lemma_same_sound(mid, *store, *encode);
                }
            }
            Err(StoreError::Database)
        },
    }
}

/// The position of the first of `candidates` whose equivalence hash can be
/// computed, that is, all of whose dependencies have known build outputs.
pub fn find_ready<F: Fn(&HydratedRecipeVersion) -> Vec<u8>>(
    store: &mut RecipeStore,
    candidates: &Vec<HydratedRecipeVersion>,
    encode: &F,
) -> (res: Result<Option<usize>, StoreError>)
    requires
        forall|r: &HydratedRecipeVersion| encode.requires((r,)),
    ensures
        old(store).grows_to(final(store)),
        sound_growth(*old(store), *final(store), *encode),
        res matches Ok(Some(i)) ==> {
            &&& i < candidates@.len()
            &&& final(store).eq_depd_cache().contains_key(candidates@[i as int].depd_hash.deep_view())
            &&& forall|j: int|
                0 <= j < i ==> !old(store).eq_depd_cache().contains_key(
                    #[trigger] candidates@[j].depd_hash.deep_view(),
                )
        },
        res matches Ok(None) ==> forall|j: int|
            0 <= j < candidates@.len() ==> !old(store).eq_depd_cache().contains_key(
                #[trigger] candidates@[j].depd_hash.deep_view(),
            ),
        res matches Ok(None) ==> forall|j: int|
            0 <= j < candidates@.len() ==> !deps_resolved(
                *old(store),
                #[trigger] candidates@[j].deep_view(),
            ),
        res matches Ok(Some(i)) ==> forall|j: int|
            0 <= j < i ==> !deps_resolved(*old(store), #[trigger] candidates@[j].deep_view()),
        res is Err ==> exists|j: int|
            0 <= j < candidates@.len() && !deps_resolved(
                *old(store),
                #[trigger] candidates@[j].deep_view(),
            ),
        res matches Ok(None) ==> forall|j: int|
            0 <= j < candidates@.len() ==> blocked_when_tried(
                *old(store),
                *final(store),
                #[trigger] candidates@[j].deep_view(),
            ),
        res matches Ok(Some(i)) ==> forall|j: int|
            0 <= j < i ==> blocked_when_tried(
                *old(store),
                *final(store),
                #[trigger] candidates@[j].deep_view(),
            ),
{
    let ghost start = *store;
    let n = candidates.len();
    for i in 0..n
        invariant
            n == candidates@.len(),
            forall|r: &HydratedRecipeVersion| encode.requires((r,)),
            start == *old(store),
            start.grows_to(store),
            sound_growth(start, *store, *encode),
            forall|j: int|
                0 <= j < i ==> !start.eq_depd_cache().contains_key(
                    #[trigger] candidates@[j].depd_hash.deep_view(),
                ),
            forall|j: int|
                0 <= j < i ==> !deps_resolved(start, #[trigger] candidates@[j].deep_view()),
            forall|j: int|
                0 <= j < i ==> blocked_when_tried(start, *store, #[trigger] candidates@[j].deep_view()),
    {
        let ghost before = *store;
        let computed = get_eq_depd_hash_from_recipe(store, &candidates[i], encode);
        proof {
            lemma_grows_to_trans(start, before, *store);
            lemma_sound_growth_trans(start, before, *store, *encode);
            assert forall|j: int| 0 <= j < i implies blocked_when_tried(
                start,
                *store,
                #[trigger] candidates@[j].deep_view(),
            ) by {
                let s = choose|s: RecipeStore|
                    start.grows_to(&s) && s.grows_to(&before) && #[trigger] eq_hash_blocked(
                        s,
                        candidates@[j].deep_view(),
                    );
                lemma_grows_to_trans(s, before, *store);
            }
            if computed matches Ok(None) {
                lemma_grows_to_refl(*store);
                assert(eq_hash_blocked(*store, candidates@[i as int].deep_view()));
            }
            if deps_resolved(start, candidates@[i as int].deep_view()) {
                lemma_deps_resolved_persist(start, before, candidates@[i as int].deep_view());
                law_ready_recipe_gets_hash(
                    before,
                    *store,
                    *encode,
                    candidates@[i as int].deep_view(),
                    computed,
                );
            }
        }
        match computed {
            Err(e) => {
                assert(!deps_resolved(start, candidates@[i as int].deep_view()));
                return Err(e);
            },
            Ok(Some(_)) => {
                return Ok(Some(i));
            },
            Ok(None) => {
                assert(!before.eq_depd_cache().contains_key(candidates@[i as int].depd_hash.deep_view()));
            },
        }
    }
    Ok(None)
}

/// The equivalence hash of `m` could not be computed in some store between
/// `before` and `after`: when it was tried.
pub open spec fn blocked_when_tried(
    before: RecipeStore,
    after: RecipeStore,
    m: HydratedRecipeModel,
) -> bool {
    exists|s: RecipeStore|
        before.grows_to(&s) && s.grows_to(&after) && #[trigger] eq_hash_blocked(s, m)
}

/// Every store grows to itself.
pub proof fn lemma_grows_to_refl(a: RecipeStore)
    ensures
        a.grows_to(&a),
{
}

/// Known build outputs stay known as the caches grow.
pub proof fn lemma_deps_resolved_persist(a: RecipeStore, b: RecipeStore, m: HydratedRecipeModel)
    requires
        a.grows_to(&b),
        deps_resolved(a, m),
    ensures
        deps_resolved(b, m),
{
    assert forall|i: int| 0 <= i < m.deps.len() implies #[trigger] b.resolved(m.deps[i].hash) by {
        assert(a.resolved(m.deps[i].hash));
        let e = choose|e: Seq<char>| #[trigger] a.resolves(m.deps[i].hash, e);
        lemma_resolves_persists(a, b, m.deps[i].hash, e);
    }
}

/// A recipe all of whose dependencies have known build outputs gets its
/// equivalence hash: computing it neither fails nor reports a dependency
/// without output.
pub proof fn law_ready_recipe_gets_hash<F: Fn(&HydratedRecipeVersion) -> Vec<u8>>(
    before: RecipeStore,
    after: RecipeStore,
    encode: F,
    m: HydratedRecipeModel,
    res: Result<Option<EqDepdRecipeHash>, StoreError>,
)
    requires
        eq_depd_computed(before, after, encode, m, res),
        deps_resolved(before, m),
    ensures
        res matches Ok(Some(_)),
{
    if res matches Ok(None) {
        let i = choose|i: int| 0 <= i < m.deps.len() && #[trigger] after.unresolved(m.deps[i].hash);
        assert(before.resolved(m.deps[i].hash));
        let e = choose|e: Seq<char>| #[trigger] before.resolves(m.deps[i].hash, e);
        lemma_resolves_persists(before, after, m.deps[i].hash, e);
    }
    if res is Err {
        let i = choose|i: int| 0 <= i < m.deps.len() && #[trigger] before.unresolved(m.deps[i].hash);
        assert(before.resolved(m.deps[i].hash));
    }
}

/// A build output recorded in the database is what reading its equivalence
/// hash answers, when the caches are sound or hold no answer for that hash:
/// a read that succeeds then finds it and never reports it missing or
/// malformed.
pub proof fn law_recorded_output_is_read_back<F: Fn(&HydratedRecipeVersion) -> Vec<u8>>(
    st: RecipeStore,
    later: RecipeStore,
    encode: F,
    q: Seq<char>,
    e: Seq<char>,
    res: Result<Option<EquivHash>, StoreError>,
)
    requires
        st.equiv_db().contains_key(key_bytes(q)),
        st.equiv_db()[key_bytes(q)] == key_bytes(e),
        cache_sound(st, encode) || !st.equiv_cache().contains_key(q),
        equiv_read(st, later, q, res),
    ensures
        res matches Ok(Some(x)) ==> x.deep_view() == e,
        !(res matches Ok(None)),
        !(res matches Err(StoreError::InvalidUtf8)),
        res matches Ok(Some(_)) ==> later.equiv_cache().contains_key(q) && later.equiv_cache()[q] == e,
{
    vstd::utf8::encode_utf8_valid_utf8(e);
    vstd::utf8::encode_utf8_decode_utf8(e);
    if st.equiv_cache().contains_key(q) {
        assert(output_entry_sound(st, q));
        vstd::utf8::encode_utf8_decode_utf8(st.equiv_cache()[q]);
    }
}

/// A read of the database that succeeds finds a recorded build output: when
/// the database holds the output `e` under the equivalence hash `q`, not
/// cached, and the read answered at all, the answer is `e`.
pub proof fn law_successful_read_finds_recorded_output(
    st: RecipeStore,
    later: RecipeStore,
    q: Seq<char>,
    e: Seq<char>,
    found: Option<Option<Seq<u8>>>,
    res: Result<Option<EquivHash>, StoreError>,
)
    requires
        st.equiv_db().contains_key(key_bytes(q)),
        st.equiv_db()[key_bytes(q)] == key_bytes(e),
        db_answer_matches(st, q, found),
        found is Some,
        db_answer_taken(st, later, q, found, res),
    ensures
        res matches Ok(Some(x)) && x.deep_view() == e,
        later.equiv_cache().contains_key(q) && later.equiv_cache()[q] == e,
{
    vstd::utf8::encode_utf8_valid_utf8(e);
    vstd::utf8::encode_utf8_decode_utf8(e);
}

/// After a build output is recorded for a recipe, asking for the build output
/// of that recipe answers it, when the caches are sound (as recording from
/// sound caches leaves them, unless another output was cached for the
/// recipe's equivalence hash) or hold no output for that hash.
pub proof fn law_recorded_build_is_read_back<F: Fn(&HydratedRecipeVersion) -> Vec<u8>>(
    before: RecipeStore,
    after: RecipeStore,
    later: RecipeStore,
    encode: F,
    h: Seq<char>,
    e: Seq<char>,
    res: Result<Option<EquivHash>, StoreError>,
)
    requires
        build_recorded(before, after, h, e),
        cache_sound(after, encode) || !after.equiv_cache().contains_key(
            after.eq_depd_cache()[after.recipes()[h].depd_hash],
        ),
        equiv_of_recipe_read(after, later, after.recipes()[h], res),
    ensures
        res matches Ok(Some(x)) ==> x.deep_view() == e && later.resolves(h, e),
        !(res matches Ok(None)),
        !(res matches Err(StoreError::InvalidUtf8)),
{
    let q = after.eq_depd_cache()[after.recipes()[h].depd_hash];
    assert(after.equiv_db().contains_key(key_bytes(q)));
    law_recorded_output_is_read_back(after, later, encode, q, e, res);
}

/// `encode` gives equal bytes for recipes with equal deep views.
pub open spec fn encodes_by_content<F: Fn(&HydratedRecipeVersion) -> Vec<u8>>(encode: F) -> bool {
    forall|r1: HydratedRecipeVersion, r2: HydratedRecipeVersion, b1: Vec<u8>, b2: Vec<u8>|
        #![trigger encode.ensures((&r1,), b1), encode.ensures((&r2,), b2)]
        encode.ensures((&r1,), b1) && encode.ensures((&r2,), b2) && r1.deep_view()
            == r2.deep_view() ==> b1@ == b2@
}

/// With an encoding that depends only on content, the bare hash of a recipe
/// does not depend on its dependencies: recipes that differ only in them get
/// the same bare hash.
pub proof fn law_bare_hash_ignores_deps<F: Fn(&HydratedRecipeVersion) -> Vec<u8>>(
    encode: F,
    m1: HydratedRecipeModel,
    m2: HydratedRecipeModel,
    h1: Seq<char>,
    h2: Seq<char>,
)
    requires
        encodes_by_content(encode),
        without_deps(m1) == without_deps(m2),
        digest_of_encoding(encode, without_deps(m1), h1),
        digest_of_encoding(encode, without_deps(m2), h2),
    ensures
        h1 == h2,
{
    let (r1, b1) = choose|r: HydratedRecipeVersion, b: Vec<u8>|
        #[trigger] encode.ensures((&r,), b) && r.deep_view() == without_deps(m1) && h1 == sha256_hex(
            b@,
        );
    let (r2, b2) = choose|r: HydratedRecipeVersion, b: Vec<u8>|
        #[trigger] encode.ensures((&r,), b) && r.deep_view() == without_deps(m2) && h2 == sha256_hex(
            b@,
        );
    assert(b1@ == b2@);
}

/// With an encoding that depends only on content, a recipe's hash is a
/// function of its content: two digests of encodings of equal recipes are
/// equal.
pub proof fn law_hash_names_content<F: Fn(&HydratedRecipeVersion) -> Vec<u8>>(
    encode: F,
    m: HydratedRecipeModel,
    h1: Seq<char>,
    h2: Seq<char>,
)
    requires
        encodes_by_content(encode),
        digest_of_encoding(encode, m, h1),
        digest_of_encoding(encode, m, h2),
    ensures
        h1 == h2,
{
    let (r1, b1) = choose|r: HydratedRecipeVersion, b: Vec<u8>|
        #[trigger] encode.ensures((&r,), b) && r.deep_view() == m && h1 == sha256_hex(b@);
    let (r2, b2) = choose|r: HydratedRecipeVersion, b: Vec<u8>|
        #[trigger] encode.ensures((&r,), b) && r.deep_view() == m && h2 == sha256_hex(b@);
    assert(b1@ == b2@);
}

/// With an encoding that depends only on content, a recipe without
/// dependencies has equal bare and full hashes.
pub proof fn law_no_deps_hashes_agree<F: Fn(&HydratedRecipeVersion) -> Vec<u8>>(
    encode: F,
    m: HydratedRecipeModel,
    h1: Seq<char>,
    h2: Seq<char>,
)
    requires
        encodes_by_content(encode),
        m.deps.len() == 0,
        digest_of_encoding(encode, without_deps(m), h1),
        digest_of_encoding(encode, m, h2),
    ensures
        h1 == h2,
{
    assert(without_deps(m) =~= m);
    law_hash_names_content(encode, m, h1, h2);
}

/// An equivalence hash once answered is the answer of every later
/// computation for a recipe with the same hash, whatever its other fields
/// and whatever the store went through in between, as long as the cache
/// of equivalence hashes only grew (as every store operation ensures).
pub proof fn law_cached_eq_hash_survives<F: Fn(&HydratedRecipeVersion) -> Vec<u8>>(
    s0: RecipeStore,
    s1: RecipeStore,
    s2: RecipeStore,
    s3: RecipeStore,
    encode: F,
    m1: HydratedRecipeModel,
    m2: HydratedRecipeModel,
    h: EqDepdRecipeHash,
    res: Result<Option<EqDepdRecipeHash>, StoreError>,
)
    requires
        eq_depd_computed(s0, s1, encode, m1, Ok(Some(h))),
        s1.eq_depd_cache().submap_of(s2.eq_depd_cache()),
        m2.depd_hash == m1.depd_hash,
        eq_depd_computed(s2, s3, encode, m2, res),
    ensures
        res matches Ok(Some(h2)) && h2.deep_view() == h.deep_view(),
{
    assert(s2.eq_depd_cache().contains_key(m1.depd_hash));
}

/// A build output once read for an equivalence hash is the answer of every
/// later read of that hash, even if the database has changed since, as
/// long as the cache of build outputs only grew.
pub proof fn law_cached_output_survives(
    s0: RecipeStore,
    s1: RecipeStore,
    s2: RecipeStore,
    s3: RecipeStore,
    k: Seq<char>,
    e: EquivHash,
    res: Result<Option<EquivHash>, StoreError>,
)
    requires
        equiv_read(s0, s1, k, Ok(Some(e))),
        s1.equiv_cache().submap_of(s2.equiv_cache()),
        equiv_read(s2, s3, k, res),
    ensures
        res matches Ok(Some(e2)) && e2.deep_view() == e.deep_view(),
{
    if s0.equiv_cache().contains_key(k) {
        assert(s1.equiv_cache() == s0.equiv_cache());
    } else {
        assert(s1.equiv_cache() == s0.equiv_cache().insert(k, e.deep_view()));
    }
    assert(s1.equiv_cache().contains_key(k) && s1.equiv_cache()[k] == e.deep_view());
    assert(s2.equiv_cache().contains_key(k));
}

/// A recipe whose build output is recorded in the database, for its known
/// equivalence hash, always has an output to be found, so it is never
/// taken for building again.
pub proof fn law_recorded_output_is_found(st: RecipeStore, d: Seq<char>)
    requires
        st.recipes().contains_key(d),
        st.eq_depd_cache().contains_key(st.recipes()[d].depd_hash),
        st.equiv_db().contains_key(key_bytes(st.eq_depd_cache()[st.recipes()[d].depd_hash])),
    ensures
        !no_output(st, d),
{
}

/// Asking twice for the equivalence hash of a recipe gives the same answer
/// the second time, and the second time changes nothing.
pub proof fn law_eq_depd_hash_memoized<F: Fn(&HydratedRecipeVersion) -> Vec<u8>>(
    s0: RecipeStore,
    s1: RecipeStore,
    s2: RecipeStore,
    encode: F,
    m: HydratedRecipeModel,
    h: EqDepdRecipeHash,
    res2: Result<Option<EqDepdRecipeHash>, StoreError>,
)
    requires
        eq_depd_computed(s0, s1, encode, m, Ok(Some(h))),
        eq_depd_computed(s1, s2, encode, m, res2),
    ensures
        res2 matches Ok(Some(h2)) && h2.deep_view() == h.deep_view(),
        s1.same_as(&s2),
{
}

/// Asking twice for the build output recorded for an equivalence hash gives
/// the same answer the second time, and the second time changes nothing.
pub proof fn law_equiv_read_memoized(
    s0: RecipeStore,
    s1: RecipeStore,
    s2: RecipeStore,
    k: Seq<char>,
    e: EquivHash,
    res2: Result<Option<EquivHash>, StoreError>,
)
    requires
        equiv_read(s0, s1, k, Ok(Some(e))),
        equiv_read(s1, s2, k, res2),
    ensures
        res2 matches Ok(Some(e2)) && e2.deep_view() == e.deep_view(),
        s1.same_as(&s2),
{
}

/// A recipe added to the store is the recipe found under its hash.
pub proof fn law_added_recipe_is_found(
    before: RecipeStore,
    after: RecipeStore,
    r: HydratedRecipeModel,
)
    requires
        after.recipes() == before.recipes().insert(r.depd_hash, r),
    ensures
        after.recipes().contains_key(r.depd_hash),
        after.recipes()[r.depd_hash] == r,
{
}

/// A dependency written `name:version`, with no colon in either, reads back
/// as that name and version, with neither `from` nor `to`.
pub proof fn law_dep_spec_round_trip(name: Seq<char>, version: Seq<char>)
    requires
        !name.contains(':'),
        !version.contains(':'),
    ensures
        names_dependency(name + seq![':'] + version),
        dep_spec_of(name + seq![':'] + version) == (DepSpecModel {
            name,
            version,
            from: None,
            to: None,
        }),
{
    let text = name + seq![':'] + version;
    assert(text[name.len() as int] == ':');
    crate::text::lemma_split_plain(name, ':');
    let head = name.push(':');
    assert(head.drop_last() =~= name);
    assert(split_pieces(head, ':') == seq![name].push(Seq::<char>::empty()));
    assert(text =~= head + version);
    crate::text::lemma_split_extend(head, version, ':');
    let ps = split_pieces(text, ':');
    assert(Seq::<char>::empty() + version =~= version);
    assert(ps =~= seq![name, version]);
}

} // verus!
