use vstd::prelude::*;

use crate::extensions::same_name;

verus! {

/// Script kind that the compiler reads as TypeScript.
pub const SCRIPT_KIND_TYPESCRIPT: u32 = 3;

/// Specifier of the warm-up file that seeds the compiler while a snapshot is built.
pub fn build_specifier() -> (r: &'static str)
    ensures
        r@ == "asset:///bootstrap.ts"@,
{
    "asset:///bootstrap.ts"
}

/// A library declaration file provided by an op crate, and where it lies.
#[derive(Clone, Debug, PartialEq, Eq)]
pub struct OpCrateLib {
    pub name: String,
    pub path: String,
}

/// What the compiler is told at the start of a snapshot build.
#[derive(Clone, Debug, PartialEq, Eq)]
pub struct BuildInfo {
    pub build_specifier: String,
    pub libs: Vec<String>,
    pub node_built_in_module_names: Vec<String>,
}

/// A loaded file as handed to the compiler.
#[derive(Clone, Debug, PartialEq, Eq)]
pub struct LoadResponse {
    pub data: String,
    pub version: String,
    pub script_kind: u32,
}

/// Where the text of a requested specifier comes from.
#[derive(Clone, Debug, PartialEq, Eq)]
pub enum LoadSource {
    /// The fixed warm-up file.
    Bootstrap,
    /// A declaration file at a path that an op crate supplied.
    OpCrateLib { path: String },
    /// A declaration file of this name in the declaration directory.
    Dts { file_name: String },
}

/// A specifier that the build-time loader cannot serve.
#[derive(Clone, Debug, PartialEq, Eq)]
pub enum LoadError {
    InvalidSpecifier { specifier: String },
}

impl LoadError {
    /// The error class that script code sees.
    pub fn class(&self) -> (r: &'static str)
        ensures
            r@ == "InvalidSpecifier"@,
    {
        "InvalidSpecifier"
    }

    /// The human-readable message, naming the specifier.
    pub fn message(&self) -> (r: String)
        ensures
            self matches LoadError::InvalidSpecifier { specifier } && r@
                == "An invalid specifier was requested: "@ + specifier@,
    {
        match self {
            LoadError::InvalidSpecifier { specifier } => {
                let mut m = String::from_str("An invalid specifier was requested: ");
                m.append(specifier.as_str());
                m
            },
        }
    }
}

/// Whether `c` is white space in Unicode's sense.
pub open spec fn is_white_space(c: char) -> bool {
    let u = c as u32;
    ||| 0x9 <= u <= 0xd
    ||| u == 0x20
    ||| u == 0x85
    ||| u == 0xa0
    ||| u == 0x1680
    ||| 0x2000 <= u <= 0x200a
    ||| u == 0x2028
    ||| u == 0x2029
    ||| u == 0x202f
    ||| u == 0x205f
    ||| u == 0x3000
}

fn white_space(c: char) -> (r: bool)
    ensures
        r == is_white_space(c),
{
    let u = c as u32;
    (0x9 <= u && u <= 0xd) || u == 0x20 || u == 0x85 || u == 0xa0 || u == 0x1680 || (0x2000 <= u
        && u <= 0x200a) || u == 0x2028 || u == 0x2029 || u == 0x202f || u == 0x205f || u == 0x3000
}

pub open spec fn lib_prefix() -> Seq<char> {
    "asset:///lib."@
}

pub open spec fn lib_suffix() -> Seq<char> {
    ".d.ts"@
}

/// From position `p` on, `s` reads `asset:///lib.`, then a non-empty name
/// free of white space that ends at `e`, then `.d.ts`.
pub open spec fn lib_match(s: Seq<char>, p: int, e: int) -> bool {
    let a = p + lib_prefix().len();
    &&& 0 <= p
    &&& a < e
    &&& e + lib_suffix().len() <= s.len()
    &&& s.subrange(p, a) == lib_prefix()
    &&& s.subrange(e, e + lib_suffix().len()) == lib_suffix()
    &&& forall|i: int| a <= i < e ==> !is_white_space(#[trigger] s[i])
}

/// The match that a search for the pattern finds: the one that starts first,
/// with the longest name among those starting there.
pub open spec fn leftmost_longest(s: Seq<char>, p: int, e: int) -> bool {
    &&& lib_match(s, p, e)
    &&& forall|p2: int, e2: int| #[trigger] lib_match(s, p2, e2) ==> p <= p2
    &&& forall|e2: int| #[trigger] lib_match(s, p, e2) ==> e2 <= e
}

/// Somewhere in `s` stands `asset:///lib.<name>.d.ts`.
pub open spec fn is_lib_specifier(s: Seq<char>) -> bool {
    exists|p: int, e: int| #[trigger] lib_match(s, p, e)
}

/// The library name that a search for the pattern in `s` captures.
pub open spec fn lib_name_of(s: Seq<char>) -> Seq<char> {
    let pe = choose|pe: (int, int)| leftmost_longest(s, pe.0, pe.1);
    s.subrange(pe.0 + lib_prefix().len(), pe.1)
}

proof fn lemma_lib_name_of(s: Seq<char>, p: int, e: int)
    requires
        leftmost_longest(s, p, e),
    ensures
        lib_name_of(s) == s.subrange(p + lib_prefix().len(), e),
{
    let pe = choose|pe: (int, int)| leftmost_longest(s, pe.0, pe.1);
    assert(leftmost_longest(s, (p, e).0, (p, e).1));
    assert(leftmost_longest(s, pe.0, pe.1));
    assert(lib_match(s, pe.0, pe.1));
    assert(p <= pe.0);
    assert(pe.0 <= p);
    assert(lib_match(s, p, pe.1));
    assert(pe.1 <= e);
    assert(e <= pe.1);
}

/// The file name of a library's declarations in the declaration directory.
pub open spec fn dts_file_name(name: Seq<char>) -> Seq<char> {
    "lib."@ + name + ".d.ts"@
}

/// The path that the first entry named `name` of `table` gives.
pub open spec fn lookup_lib(table: Seq<OpCrateLib>, name: Seq<char>) -> Option<Seq<char>>
    decreases table.len(),
{
    if table.len() == 0 {
        None
    } else if table[0].name@ == name {
        Some(table[0].path@)
    } else {
        lookup_lib(table.drop_first(), name)
    }
}

/// The names of the libraries in `table`, in order.
pub open spec fn op_lib_names(table: Seq<OpCrateLib>) -> Seq<Seq<char>> {
    table.map_values(|l: OpCrateLib| l.name@)
}

/// Whether `part` stands in `s` from character `at` on.
fn holds_at(s: &str, at: usize, part: &str) -> (r: bool)
    requires
        at + part@.len() <= s@.len(),
    ensures
        r == (s@.subrange(at as int, at + part@.len()) == part@),
{
    let m = part.unicode_len();
    let n = s.unicode_len();
    let mut k: usize = 0;
    while k < m
        invariant
            m == part@.len(),
            n == s@.len(),
            at + m <= s@.len(),
            0 <= k <= m,
            forall|j: int| 0 <= j < k ==> s@[at + j] == part@[j],
        decreases m - k,
    {
        if s.get_char(at + k) != part.get_char(k) {
            assert(s@.subrange(at as int, at + m)[k as int] != part@[k as int]);
            return false;
        }
        k = k + 1;
    }
    assert(s@.subrange(at as int, at + m) =~= part@);
    true
}

/// The library name that the pattern `asset:///lib.<name>.d.ts` captures in
/// `specifier`: the match starting first, with the longest name there.
pub fn parse_lib_specifier(specifier: &str) -> (r: Option<String>)
    ensures
        r is Some <==> is_lib_specifier(specifier@),
        r matches Some(name) ==> name@ == lib_name_of(specifier@),
{
    let prefix = "asset:///lib.";
    let suffix = ".d.ts";
    proof {
        reveal_strlit("asset:///lib.");
        reveal_strlit(".d.ts");
    }
    let ghost s = specifier@;
    let n = specifier.unicode_len();
    let pl = prefix.unicode_len();
    let sl = suffix.unicode_len();
    assert forall|k: int| 0 <= k < sl implies !is_white_space(#[trigger] lib_suffix()[k]) by {
        assert(lib_suffix()[k] == '.' || lib_suffix()[k] == 'd' || lib_suffix()[k] == 't'
            || lib_suffix()[k] == 's');
    }
    assert(pl == 13 && sl == 5);
    let mut p: usize = 0;
    while p < n && n - p > pl + sl
        invariant
            p <= n,
            pl == 13,
            sl == 5,
            n == s.len(),
            s == specifier@,
            pl == lib_prefix().len(),
            sl == lib_suffix().len(),
            prefix@ == lib_prefix(),
            suffix@ == lib_suffix(),
            forall|k: int| 0 <= k < sl ==> !is_white_space(#[trigger] lib_suffix()[k]),
            forall|p2: int, e2: int| #[trigger] lib_match(s, p2, e2) ==> p <= p2,
        decreases n - p,
    {
        if holds_at(specifier, p, prefix) {
            let a = p + pl;
            let mut q: usize = a;
            while q < n
                invariant
                    a <= q <= n,
                    n == s.len(),
                    s == specifier@,
                    forall|i: int| a <= i < q ==> !is_white_space(#[trigger] s[i]),
                ensures
                    a <= q <= n,
                    q == n || is_white_space(s[q as int]),
                    forall|i: int| a <= i < q ==> !is_white_space(#[trigger] s[i]),
                decreases n - q,
            {
                if white_space(specifier.get_char(q)) {
                    break;
                }
                q = q + 1;
            }
            // Every match from `p` ends its suffix within the run `[a, q)`.
            assert forall|e2: int| #[trigger] lib_match(s, p as int, e2) implies e2 + sl <= q by {
                if e2 + sl > q {
                    if q < e2 {
                        assert(!is_white_space(s[q as int]));
                    } else {
                        assert(s[q as int] == s.subrange(e2, e2 + sl)[q - e2]);
                        assert(!is_white_space(lib_suffix()[q - e2]));
                    }
                }
            }
            if q >= a + 1 + sl {
                let mut e: usize = q - sl;
                while e > a
                    invariant
                        a < q,
                        q <= n,
                        a == p + pl,
                        pl == lib_prefix().len(),
                        s.subrange(p as int, a as int) == lib_prefix(),
                        a + 1 + sl <= q,
                        a <= e <= q - sl,
                        n == s.len(),
                        s == specifier@,
                        suffix@ == lib_suffix(),
                        sl == lib_suffix().len(),
                        forall|i: int| a <= i < q ==> !is_white_space(#[trigger] s[i]),
                        forall|e2: int| #[trigger] lib_match(s, p as int, e2) ==> e2 + sl <= q,
                        forall|e2: int| #[trigger] lib_match(s, p as int, e2) ==> e2 <= e,
                        forall|p2: int, e2: int| #[trigger] lib_match(s, p2, e2) ==> p <= p2,
                    decreases e,
                {
                    if holds_at(specifier, e, suffix) {
                        assert(lib_match(s, p as int, e as int));
                        assert(leftmost_longest(s, p as int, e as int));
                        proof {
                            lemma_lib_name_of(s, p as int, e as int);
                        }
                        let name = specifier.substring_char(a, e);
                        return Some(name.to_owned());
                    }
                    e = e - 1;
                }
            }
            assert(forall|e2: int| !lib_match(s, p as int, e2));
        } else {
            assert(forall|e2: int| !lib_match(s, p as int, e2));
        }
        p = p + 1;
    }
    assert forall|p2: int, e2: int| !lib_match(s, p2, e2) by {
        if lib_match(s, p2, e2) {
            assert(p <= p2);
        }
    }
    assert(!is_lib_specifier(s));
    None
}

/// The path that the first entry of `table` named `name` gives.
fn find_op_crate_lib(table: &Vec<OpCrateLib>, name: &str) -> (r: Option<String>)
    ensures
        r matches Some(p) ==> lookup_lib(table@, name@) == Some(p@),
        r is None ==> lookup_lib(table@, name@) is None,
{
    let mut i: usize = 0;
    assert(table@.subrange(0, table@.len() as int) =~= table@);
    while i < table.len()
        invariant
            0 <= i <= table@.len(),
            lookup_lib(table@, name@) == lookup_lib(table@.subrange(i as int, table@.len() as int), name@),
        decreases table@.len() - i,
    {
        let ghost rest = table@.subrange(i as int, table@.len() as int);
        assert(rest[0] == table@[i as int]);
        assert(rest.drop_first() =~= table@.subrange(i + 1, table@.len() as int));
        if same_name(table[i].name.as_str(), name) {
            return Some(table[i].path.clone());
        }
        i = i + 1;
    }
    None
}

/// Decides where the text of `specifier` comes from: the warm-up file, a
/// declaration file supplied by an op crate, or one of the declaration
/// directory; any other specifier is invalid.
pub fn resolve_load(specifier: &str, op_crate_libs: &Vec<OpCrateLib>) -> (r: Result<
    LoadSource,
    LoadError,
>)
    ensures
        specifier@ == "asset:///bootstrap.ts"@ ==> r matches Ok(LoadSource::Bootstrap),
        specifier@ != "asset:///bootstrap.ts"@ ==> {
            &&& !is_lib_specifier(specifier@) ==> (r matches Err(
                LoadError::InvalidSpecifier { specifier: s },
            ) && s@ == specifier@)
            &&& is_lib_specifier(specifier@) ==> match lookup_lib(
                op_crate_libs@,
                lib_name_of(specifier@),
            ) {
                Some(p) => r matches Ok(LoadSource::OpCrateLib { path }) && path@ == p,
                None => r matches Ok(LoadSource::Dts { file_name }) && file_name@
                    == dts_file_name(lib_name_of(specifier@)),
            }
        },
{
    if same_name(specifier, build_specifier()) {
        return Ok(LoadSource::Bootstrap);
    }
    match parse_lib_specifier(specifier) {
        None => Err(LoadError::InvalidSpecifier { specifier: specifier.to_owned() }),
        Some(name) => match find_op_crate_lib(op_crate_libs, name.as_str()) {
            Some(path) => Ok(LoadSource::OpCrateLib { path }),
            None => {
                let mut file_name = String::from_str("lib.");
                file_name.append(name.as_str());
                file_name.append(".d.ts");
                Ok(LoadSource::Dts { file_name })
            },
        },
    }
}

/// The response for the warm-up file.
pub fn bootstrap_response() -> (r: LoadResponse)
    ensures
        r.data@ == "Deno.writeTextFile(\"hello.txt\", \"hello deno!\");"@,
        r.version@ == "1"@,
        r.script_kind == SCRIPT_KIND_TYPESCRIPT,
{
    LoadResponse {
        data: String::from_str("Deno.writeTextFile(\"hello.txt\", \"hello deno!\");"),
        version: String::from_str("1"),
        script_kind: SCRIPT_KIND_TYPESCRIPT,
    }
}

/// The response for a declaration file whose text is `data`.
pub fn lib_response(data: String) -> (r: LoadResponse)
    ensures
        r.data@ == data@,
        r.version@ == "1"@,
        r.script_kind == SCRIPT_KIND_TYPESCRIPT,
{
    LoadResponse { data, version: String::from_str("1"), script_kind: SCRIPT_KIND_TYPESCRIPT }
}

/// Answers a load of `specifier` from where [`resolve_load`] sent it and the
/// text found there: the warm-up file needs none, and a declaration file
/// whose text could not be found is an invalid specifier.
pub fn complete_load(specifier: &str, source: &LoadSource, file_text: Option<String>) -> (r:
    Result<LoadResponse, LoadError>)
    ensures
        source is Bootstrap ==> (r matches Ok(resp) && resp.data@
            == "Deno.writeTextFile(\"hello.txt\", \"hello deno!\");"@ && resp.version@ == "1"@
            && resp.script_kind == SCRIPT_KIND_TYPESCRIPT),
        !(source is Bootstrap) ==> match file_text {
            Some(t) => r matches Ok(resp) && resp.data@ == t@ && resp.version@ == "1"@
                && resp.script_kind == SCRIPT_KIND_TYPESCRIPT,
            None => r matches Err(LoadError::InvalidSpecifier { specifier: s }) && s@
                == specifier@,
        },
{
    match source {
        LoadSource::Bootstrap => Ok(bootstrap_response()),
        _ => match file_text {
            Some(t) => Ok(lib_response(t)),
            None => Err(LoadError::InvalidSpecifier { specifier: specifier.to_owned() }),
        },
    }
}

/// A copy of `v`.
fn copy_strings(v: &Vec<String>) -> (r: Vec<String>)
    ensures
        r.deep_view() == v.deep_view(),
        r@.len() == v@.len(),
        forall|k: int| 0 <= k < v@.len() ==> (#[trigger] r@[k])@ == v@[k]@,
{
    let mut out: Vec<String> = Vec::new();
    let mut i: usize = 0;
    while i < v.len()
        invariant
            0 <= i <= v@.len(),
            out@.len() == i,
            forall|k: int| 0 <= k < i ==> (#[trigger] out@[k])@ == v@[k]@,
        decreases v@.len() - i,
    {
        out.push(v[i].clone());
        i = i + 1;
    }
    proof {
        assert(out.deep_view() =~= v.deep_view());
    }
    out
}

/// The libraries that the compiler snapshot loads before it is taken:
/// the runtime's own type libraries, then the language's built-in ones.
pub fn compiler_snapshot_libs() -> (r: Vec<String>)
    ensures
        r.deep_view() == seq![
            "deno.window"@,
            "deno.worker"@,
            "deno.shared_globals"@,
            "deno.ns"@,
            "deno.unstable"@,
            "es5"@,
            "es2015.collection"@,
            "es2015.core"@,
            "es2015"@,
            "es2015.generator"@,
            "es2015.iterable"@,
            "es2015.promise"@,
            "es2015.proxy"@,
            "es2015.reflect"@,
            "es2015.symbol"@,
            "es2015.symbol.wellknown"@,
            "es2016.array.include"@,
            "es2016"@,
            "es2017"@,
            "es2017.intl"@,
            "es2017.object"@,
            "es2017.sharedmemory"@,
            "es2017.string"@,
            "es2017.typedarrays"@,
            "es2018.asyncgenerator"@,
            "es2018.asynciterable"@,
            "es2018"@,
            "es2018.intl"@,
            "es2018.promise"@,
            "es2018.regexp"@,
            "es2019.array"@,
            "es2019"@,
            "es2019.intl"@,
            "es2019.object"@,
            "es2019.string"@,
            "es2019.symbol"@,
            "es2020.bigint"@,
            "es2020"@,
            "es2020.date"@,
            "es2020.intl"@,
            "es2020.number"@,
            "es2020.promise"@,
            "es2020.sharedmemory"@,
            "es2020.string"@,
            "es2020.symbol.wellknown"@,
            "es2021"@,
            "es2021.intl"@,
            "es2021.promise"@,
            "es2021.string"@,
            "es2021.weakref"@,
            "es2022"@,
            "es2022.array"@,
            "es2022.error"@,
            "es2022.intl"@,
            "es2022.object"@,
            "es2022.sharedmemory"@,
            "es2022.string"@,
            "esnext"@,
            "esnext.array"@,
            "esnext.intl"@,
        ],
{
    let mut libs: Vec<String> = Vec::new();
    libs.push(String::from_str("deno.window"));
    libs.push(String::from_str("deno.worker"));
    libs.push(String::from_str("deno.shared_globals"));
    libs.push(String::from_str("deno.ns"));
    libs.push(String::from_str("deno.unstable"));
    libs.push(String::from_str("es5"));
    libs.push(String::from_str("es2015.collection"));
    libs.push(String::from_str("es2015.core"));
    libs.push(String::from_str("es2015"));
    libs.push(String::from_str("es2015.generator"));
    libs.push(String::from_str("es2015.iterable"));
    libs.push(String::from_str("es2015.promise"));
    libs.push(String::from_str("es2015.proxy"));
    libs.push(String::from_str("es2015.reflect"));
    libs.push(String::from_str("es2015.symbol"));
    libs.push(String::from_str("es2015.symbol.wellknown"));
    libs.push(String::from_str("es2016.array.include"));
    libs.push(String::from_str("es2016"));
    libs.push(String::from_str("es2017"));
    libs.push(String::from_str("es2017.intl"));
    libs.push(String::from_str("es2017.object"));
    libs.push(String::from_str("es2017.sharedmemory"));
    libs.push(String::from_str("es2017.string"));
    libs.push(String::from_str("es2017.typedarrays"));
    libs.push(String::from_str("es2018.asyncgenerator"));
    libs.push(String::from_str("es2018.asynciterable"));
    libs.push(String::from_str("es2018"));
    libs.push(String::from_str("es2018.intl"));
    libs.push(String::from_str("es2018.promise"));
    libs.push(String::from_str("es2018.regexp"));
    libs.push(String::from_str("es2019.array"));
    libs.push(String::from_str("es2019"));
    libs.push(String::from_str("es2019.intl"));
    libs.push(String::from_str("es2019.object"));
    libs.push(String::from_str("es2019.string"));
    libs.push(String::from_str("es2019.symbol"));
    libs.push(String::from_str("es2020.bigint"));
    libs.push(String::from_str("es2020"));
    libs.push(String::from_str("es2020.date"));
    libs.push(String::from_str("es2020.intl"));
    libs.push(String::from_str("es2020.number"));
    libs.push(String::from_str("es2020.promise"));
    libs.push(String::from_str("es2020.sharedmemory"));
    libs.push(String::from_str("es2020.string"));
    libs.push(String::from_str("es2020.symbol.wellknown"));
    libs.push(String::from_str("es2021"));
    libs.push(String::from_str("es2021.intl"));
    libs.push(String::from_str("es2021.promise"));
    libs.push(String::from_str("es2021.string"));
    libs.push(String::from_str("es2021.weakref"));
    libs.push(String::from_str("es2022"));
    libs.push(String::from_str("es2022.array"));
    libs.push(String::from_str("es2022.error"));
    libs.push(String::from_str("es2022.intl"));
    libs.push(String::from_str("es2022.object"));
    libs.push(String::from_str("es2022.sharedmemory"));
    libs.push(String::from_str("es2022.string"));
    libs.push(String::from_str("esnext"));
    libs.push(String::from_str("esnext.array"));
    libs.push(String::from_str("esnext.intl"));
    proof {
        assert(libs.deep_view() =~= seq![
            "deno.window"@,
            "deno.worker"@,
            "deno.shared_globals"@,
            "deno.ns"@,
            "deno.unstable"@,
            "es5"@,
            "es2015.collection"@,
            "es2015.core"@,
            "es2015"@,
            "es2015.generator"@,
            "es2015.iterable"@,
            "es2015.promise"@,
            "es2015.proxy"@,
            "es2015.reflect"@,
            "es2015.symbol"@,
            "es2015.symbol.wellknown"@,
            "es2016.array.include"@,
            "es2016"@,
            "es2017"@,
            "es2017.intl"@,
            "es2017.object"@,
            "es2017.sharedmemory"@,
            "es2017.string"@,
            "es2017.typedarrays"@,
            "es2018.asyncgenerator"@,
            "es2018.asynciterable"@,
            "es2018"@,
            "es2018.intl"@,
            "es2018.promise"@,
            "es2018.regexp"@,
            "es2019.array"@,
            "es2019"@,
            "es2019.intl"@,
            "es2019.object"@,
            "es2019.string"@,
            "es2019.symbol"@,
            "es2020.bigint"@,
            "es2020"@,
            "es2020.date"@,
            "es2020.intl"@,
            "es2020.number"@,
            "es2020.promise"@,
            "es2020.sharedmemory"@,
            "es2020.string"@,
            "es2020.symbol.wellknown"@,
            "es2021"@,
            "es2021.intl"@,
            "es2021.promise"@,
            "es2021.string"@,
            "es2021.weakref"@,
            "es2022"@,
            "es2022.array"@,
            "es2022.error"@,
            "es2022.intl"@,
            "es2022.object"@,
            "es2022.sharedmemory"@,
            "es2022.string"@,
            "esnext"@,
            "esnext.array"@,
            "esnext.intl"@,
        ]);
    }
    libs
}

/// The names of `table` in order, each at its first occurrence only: a
/// table names each library once.
pub open spec fn distinct_lib_names(table: Seq<OpCrateLib>) -> Seq<Seq<char>>
    decreases table.len(),
{
    if table.len() == 0 {
        Seq::empty()
    } else {
        let rest = distinct_lib_names(table.drop_last());
        if rest.contains(table.last().name@) {
            rest
        } else {
            rest.push(table.last().name@)
        }
    }
}

/// The libraries that a compiler snapshot is built with, as the compiler
/// later lists them.
pub open spec fn compiler_libs(libs: Seq<Seq<char>>, op_crate_libs: Seq<OpCrateLib>) -> Seq<
    Seq<char>,
> {
    libs + distinct_lib_names(op_crate_libs)
}

/// Whether `v` holds a string spelled as `x`.
fn contains_name(v: &Vec<String>, x: &String) -> (r: bool)
    ensures
        r == v.deep_view().contains(x@),
{
    let mut i: usize = 0;
    while i < v.len()
        invariant
            0 <= i <= v@.len(),
            forall|k: int| 0 <= k < i ==> (#[trigger] v@[k])@ != x@,
        decreases v@.len() - i,
    {
        if v[i] == *x {
            assert(v.deep_view()[i as int] == x@);
            return true;
        }
        i = i + 1;
    }
    proof {
        if v.deep_view().contains(x@) {
            let k = choose|k: int| 0 <= k < v.deep_view().len() && v.deep_view()[k] == x@;
            assert(v@[k]@ == x@);
        }
    }
    false
}

/// The libraries loaded into a compiler snapshot: `libs`, then the op-crate
/// libraries in table order, each name once.
pub fn compiler_lib_names(libs: &Vec<String>, op_crate_libs: &Vec<OpCrateLib>) -> (r: Vec<String>)
    ensures
        r.deep_view() == compiler_libs(libs.deep_view(), op_crate_libs@),
{
    let mut seen: Vec<String> = Vec::new();
    let mut i: usize = 0;
    proof {
        assert(op_crate_libs@.take(0) =~= Seq::<OpCrateLib>::empty());
        assert(seen.deep_view() =~= Seq::<Seq<char>>::empty());
    }
    while i < op_crate_libs.len()
        invariant
            0 <= i <= op_crate_libs@.len(),
            seen.deep_view() == distinct_lib_names(op_crate_libs@.take(i as int)),
        decreases op_crate_libs@.len() - i,
    {
        proof {
            let t = op_crate_libs@.take(i + 1);
            assert(t.drop_last() =~= op_crate_libs@.take(i as int));
            assert(t.last() == op_crate_libs@[i as int]);
        }
        let name = &op_crate_libs[i].name;
        if !contains_name(&seen, name) {
            let ghost before = seen.deep_view();
            seen.push(name.clone());
            proof {
                assert(seen.deep_view() =~= before.push(name@));
            }
        }
        i = i + 1;
    }
    proof {
        assert(op_crate_libs@.take(i as int) =~= op_crate_libs@);
    }
    let mut out = copy_strings(libs);
    let mut j: usize = 0;
    while j < seen.len()
        invariant
            0 <= j <= seen@.len(),
            out@.len() == libs@.len() + j,
            forall|k: int| 0 <= k < libs@.len() ==> (#[trigger] out@[k])@ == libs@[k]@,
            forall|k: int| 0 <= k < j ==> (#[trigger] out@[libs@.len() + k])@ == seen@[k]@,
        decreases seen@.len() - j,
    {
        out.push(seen[j].clone());
        j = j + 1;
    }
    proof {
        let want = compiler_libs(libs.deep_view(), op_crate_libs@);
        assert forall|k: int| 0 <= k < want.len() implies out.deep_view()[k] == want[k] by {
            if k >= libs@.len() {
                assert(out@[libs@.len() + (k - libs@.len())] == out@[k]);
                assert(seen.deep_view()[k - libs@.len()] == seen@[k - libs@.len()]@);
            }
        }
        assert(out.deep_view() =~= want);
    }
    out
}

proof fn lemma_distinct_lib_names(table: Seq<OpCrateLib>)
    ensures
        distinct_lib_names(table).no_duplicates(),
        forall|n: Seq<char>|
            #![trigger distinct_lib_names(table).contains(n)]
            distinct_lib_names(table).contains(n) <==> op_lib_names(table).contains(n),
    decreases table.len(),
{
    if table.len() > 0 {
        let init = table.drop_last();
        lemma_distinct_lib_names(init);
        let rest = distinct_lib_names(init);
        let last = table.last().name@;
        assert forall|n: Seq<char>| op_lib_names(table).contains(n) <==> (op_lib_names(init).contains(
            n,
        ) || n == last) by {
            if op_lib_names(table).contains(n) {
                let k = choose|k: int| 0 <= k < table.len() && op_lib_names(table)[k] == n;
                if k < table.len() - 1 {
                    assert(op_lib_names(init)[k] == n);
                }
            }
            if op_lib_names(init).contains(n) {
                let k = choose|k: int| 0 <= k < init.len() && op_lib_names(init)[k] == n;
                assert(op_lib_names(table)[k] == n);
            }
            if n == last {
                assert(op_lib_names(table)[table.len() - 1] == n);
            }
        }
        if !rest.contains(last) {
            assert forall|n: Seq<char>| rest.push(last).contains(n) <==> (rest.contains(n)
                || n == last) by {
                if rest.push(last).contains(n) {
                    let k = choose|k: int| 0 <= k < rest.len() + 1 && rest.push(last)[k] == n;
                    if k < rest.len() {
                        assert(rest[k] == n);
                    }
                }
                if rest.contains(n) {
                    let k = choose|k: int| 0 <= k < rest.len() && rest[k] == n;
                    assert(rest.push(last)[k] == n);
                }
                if n == last {
                    assert(rest.push(last)[rest.len() as int] == n);
                }
            }
            assert forall|a: int, b: int|
                0 <= a < rest.len() + 1 && 0 <= b < rest.len() + 1 && a != b implies rest.push(
                last,
            )[a] != rest.push(last)[b] by {
                if a == rest.len() {
                    assert(rest[b] == rest.push(last)[b]);
                } else if b == rest.len() {
                    assert(rest[a] == rest.push(last)[a]);
                }
            }
        }
        assert forall|n: Seq<char>| #[trigger] distinct_lib_names(table).contains(n)
            <==> op_lib_names(table).contains(n) by {
            assert(rest.contains(n) <==> op_lib_names(init).contains(n));
            assert(op_lib_names(table).contains(n) <==> (op_lib_names(init).contains(n) || n
                == last));
            if rest.contains(last) {
                assert(distinct_lib_names(table) == rest);
            } else {
                assert(distinct_lib_names(table) == rest.push(last));
                assert(rest.push(last).contains(n) <==> (rest.contains(n) || n == last));
            }
        }
    }
}

/// The build information handed to the compiler: the warm-up specifier, the
/// libraries to load, and the built-in module names.
pub fn op_build_info(build_libs: &Vec<String>, node_built_in_module_names: &Vec<String>) -> (r:
    BuildInfo)
    ensures
        r.build_specifier@ == "asset:///bootstrap.ts"@,
        r.libs.deep_view() == build_libs.deep_view(),
        r.node_built_in_module_names.deep_view() == node_built_in_module_names.deep_view(),
{
    BuildInfo {
        build_specifier: String::from_str(build_specifier()),
        libs: copy_strings(build_libs),
        node_built_in_module_names: copy_strings(node_built_in_module_names),
    }
}

/// The working directory that the compiler sees while a snapshot is built.
pub fn op_cwd() -> (r: String)
    ensures
        r@ == "cache:///"@,
{
    String::from_str("cache:///")
}

/// No file exists for the compiler while a snapshot is built.
pub fn op_exists() -> (r: bool)
    ensures
        !r,
{
    false
}

/// No file is a node file while a snapshot is built.
pub fn op_is_node_file() -> (r: bool)
    ensures
        !r,
{
    false
}

/// Every script has the same version while a snapshot is built.
pub fn op_script_version() -> (r: Option<String>)
    ensures
        r matches Some(v) && v@ == "1"@,
{
    Some(String::from_str("1"))
}

/// A compiler snapshot built from `libs` and the op-crate table lists
/// exactly those libraries, in that order: `libs` first, then each name of
/// the table once, and nothing else.
pub proof fn lemma_compiler_libs_exact(libs: Seq<Seq<char>>, op_crate_libs: Seq<OpCrateLib>)
    ensures
        compiler_libs(libs, op_crate_libs).take(libs.len() as int) == libs,
        distinct_lib_names(op_crate_libs).no_duplicates(),
        forall|n: Seq<char>|
            #![trigger compiler_libs(libs, op_crate_libs).contains(n)]
            compiler_libs(libs, op_crate_libs).contains(n) <==> (libs.contains(n)
                || op_lib_names(op_crate_libs).contains(n)),
{
    lemma_distinct_lib_names(op_crate_libs);
    let all = compiler_libs(libs, op_crate_libs);
    let names = distinct_lib_names(op_crate_libs);
    assert(all.take(libs.len() as int) =~= libs);
    assert forall|n: Seq<char>| all.contains(n) <==> (libs.contains(n) || names.contains(n)) by {
        if all.contains(n) {
            let i = choose|i: int| 0 <= i < all.len() && all[i] == n;
            if i >= libs.len() {
                assert(names[i - libs.len()] == n);
            }
        }
        if libs.contains(n) {
            let i = choose|i: int| 0 <= i < libs.len() && libs[i] == n;
            assert(all[i] == n);
        }
        if names.contains(n) {
            let i = choose|i: int| 0 <= i < names.len() && names[i] == n;
            assert(all[libs.len() + i] == n);
        }
    }
}

} // verus!
