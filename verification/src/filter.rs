use vstd::prelude::*;

verus! {

#[verifier::external_type_specification]
#[verifier::external_body]
pub struct ExGlob<'t>(wax::Glob<'t>);

/// Whether the glob with the given source expression matches the given path
/// text, as wax decides it: a function of the two texts alone.
pub uninterp spec fn glob_matches(pattern: Seq<char>, path: Seq<char>) -> bool;

/// Whether wax accepts the given text as a well-formed glob expression.
pub uninterp spec fn glob_compiles(pattern: Seq<char>) -> bool;

/// A glob kept together with the expression it was compiled from; the only
/// constructor is `compile_glob`, so the two always belong together.
pub struct CompiledGlob {
    source: String,
    glob: wax::Glob<'static>,
}

impl CompiledGlob {
    /// The expression this glob was compiled from.
    pub closed spec fn source_view(self) -> Seq<char> {
        self.source@
    }
}

/// Relies on wax::Glob::new and Glob::into_owned: compiling a glob
/// expression succeeds or fails on the expression text alone, and the
/// compiled glob is kept beside its text.
#[verifier::external_body]
fn compile_glob(source: &String) -> (r: Result<CompiledGlob, String>)
    ensures
        r is Ok <==> glob_compiles(source@),
        r is Ok ==> r.unwrap().source_view() == source@,
{
    match wax::Glob::new(source.as_str()) {
        Ok(g) => Ok(CompiledGlob { source: source.clone(), glob: g.into_owned() }),
        Err(e) => Err(format!("{}", e)),
    }
}

/// Relies on wax::Glob::is_match (through wax's Program trait): whether the
/// compiled pattern matches the path text, a function of the pattern's
/// source expression and the path alone.
#[verifier::external_body]
fn glob_is_match(g: &CompiledGlob, path: &str) -> (r: bool)
    ensures
        r == glob_matches(g.source_view(), path@),
{
    wax::Program::is_match(&g.glob, wax::CandidatePath::from(path))
}

/// Whether any pattern of the set matches the path.
pub open spec fn matches_any(patterns: Seq<Seq<char>>, path: Seq<char>) -> bool {
    exists|i: int| 0 <= i < patterns.len() && glob_matches(patterns[i], path)
}

/// The filter's rule: a path is rejected exactly when it matches some
/// exclude pattern and no include pattern. Includes rescue an excluded path;
/// they are not an allow-list.
pub open spec fn spec_accepts(
    excludes: Seq<Seq<char>>,
    includes: Seq<Seq<char>>,
    path: Seq<char>,
) -> bool {
    !(matches_any(excludes, path) && !matches_any(includes, path))
}

/// Law: include patterns override excludes — a path that matches any
/// include pattern is accepted, whatever the exclude patterns say.
pub proof fn lemma_include_overrides(
    excludes: Seq<Seq<char>>,
    includes: Seq<Seq<char>>,
    path: Seq<char>,
    i: int,
)
    requires
        0 <= i < includes.len(),
        glob_matches(includes[i], path),
    ensures
        spec_accepts(excludes, includes, path),
{
}

/// Law: a path that matches no exclude pattern is accepted, whatever the
/// include patterns say.
pub proof fn lemma_unexcluded_accepted(
    excludes: Seq<Seq<char>>,
    includes: Seq<Seq<char>>,
    path: Seq<char>,
)
    requires
        !matches_any(excludes, path),
    ensures
        spec_accepts(excludes, includes, path),
{
}

/// Where pattern compilation failed: which list, which entry, and wax's
/// message.
#[derive(Debug)]
pub struct PatternError {
    pub exclude: bool,
    pub index: usize,
    pub message: String,
}

/// The compiled include and exclude patterns of one scan.
pub struct PatternSet {
    includes: Vec<CompiledGlob>,
    excludes: Vec<CompiledGlob>,
}

impl PatternSet {
    /// The include patterns' source expressions.
    pub closed spec fn include_sources(self) -> Seq<Seq<char>> {
        self.includes@.map_values(|g: CompiledGlob| g.source_view())
    }

    /// The exclude patterns' source expressions.
    pub closed spec fn exclude_sources(self) -> Seq<Seq<char>> {
        self.excludes@.map_values(|g: CompiledGlob| g.source_view())
    }

    /// Compile every pattern, or report the first malformed one: a fatal
    /// startup error, and no scanning begins.
    pub fn new(includes: &Vec<String>, excludes: &Vec<String>) -> (r: Result<
        PatternSet,
        PatternError,
    >)
        ensures
            r is Ok <==> (forall|i: int|
                0 <= i < includes@.len() ==> glob_compiles(#[trigger] includes@[i]@)) && (forall|
                i: int,
            |
                0 <= i < excludes@.len() ==> glob_compiles(#[trigger] excludes@[i]@)),
            r is Ok ==> r.unwrap().include_sources() == includes@.map_values(|s: String| s@)
                && r.unwrap().exclude_sources() == excludes@.map_values(|s: String| s@),
            r matches Err(e) ==> (if e.exclude {
                e.index < excludes@.len() && !glob_compiles(excludes@[e.index as int]@)
            } else {
                e.index < includes@.len() && !glob_compiles(includes@[e.index as int]@)
            }),
    {
        let mut inc: Vec<CompiledGlob> = Vec::new();
        let mut i: usize = 0;
        while i < includes.len()
            invariant
                i <= includes@.len(),
                inc@.len() == i,
                forall|k: int|
                    0 <= k < i ==> (#[trigger] inc@[k]).source_view() == includes@[k]@
                        && glob_compiles(includes@[k]@),
            decreases includes@.len() - i,
        {
            match compile_glob(&includes[i]) {
                Ok(g) => {
                    inc.push(g);
                },
                Err(message) => {
                    return Err(PatternError { exclude: false, index: i, message });
                },
            }
            i = i + 1;
        }
        let mut exc: Vec<CompiledGlob> = Vec::new();
        let mut j: usize = 0;
        while j < excludes.len()
            invariant
                j <= excludes@.len(),
                exc@.len() == j,
                forall|k: int|
                    0 <= k < j ==> (#[trigger] exc@[k]).source_view() == excludes@[k]@
                        && glob_compiles(excludes@[k]@),
            decreases excludes@.len() - j,
        {
            match compile_glob(&excludes[j]) {
                Ok(g) => {
                    exc.push(g);
                },
                Err(message) => {
                    return Err(PatternError { exclude: true, index: j, message });
                },
            }
            j = j + 1;
        }
        let set = PatternSet { includes: inc, excludes: exc };
        proof {
            assert(set.include_sources() =~= includes@.map_values(|s: String| s@));
            assert(set.exclude_sources() =~= excludes@.map_values(|s: String| s@));
            assert forall|t: int| 0 <= t < includes@.len() implies glob_compiles(
                #[trigger] includes@[t]@,
            ) by {
                assert(inc@[t].source_view() == includes@[t]@);
            }
            assert forall|t: int| 0 <= t < excludes@.len() implies glob_compiles(
                #[trigger] excludes@[t]@,
            ) by {
                assert(exc@[t].source_view() == excludes@[t]@);
            }
        }
        Ok(set)
    }

    /// The filter's decision for one path.
    pub fn accepts(&self, path: &str) -> (r: bool)
        ensures
            r == spec_accepts(self.exclude_sources(), self.include_sources(), path@),
    {
        if matches_any_exec(&self.excludes, path) {
            proof {
                assert(matches_any(self.exclude_sources(), path@));
            }
            let rescued = matches_any_exec(&self.includes, path);
            proof {
                assert(rescued == matches_any(self.include_sources(), path@));
            }
            rescued
        } else {
            true
        }
    }
}

/// Whether any of the compiled patterns matches the path.
fn matches_any_exec(patterns: &Vec<CompiledGlob>, path: &str) -> (r: bool)
    ensures
        r == matches_any(patterns@.map_values(|g: CompiledGlob| g.source_view()), path@),
{
    let ghost sources = patterns@.map_values(|g: CompiledGlob| g.source_view());
    let mut i: usize = 0;
    while i < patterns.len()
        invariant
            i <= patterns@.len(),
            sources == patterns@.map_values(|g: CompiledGlob| g.source_view()),
            forall|k: int| 0 <= k < i ==> !glob_matches(#[trigger] sources[k], path@),
        decreases patterns@.len() - i,
    {
        if glob_is_match(&patterns[i], path) {
            proof {
                assert(sources[i as int] == patterns@[i as int].source_view());
            }
            return true;
        }
        i = i + 1;
    }
    false
}

} // verus!
