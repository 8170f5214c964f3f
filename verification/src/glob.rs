//! Globs: which names and paths are meant.

use globset::{Glob, GlobSet, GlobSetBuilder};
use vstd::prelude::*;
use vstd::string::*;

use crate::error::{because, plain, within, Error, ErrorKind, ErrorView};
use crate::model::views;
use crate::text::{chars_of, Text};

verus! {

/// A parsed glob, opaque here.
#[verifier::external_type_specification]
#[verifier::external_body]
pub struct ExGlob(globset::Glob);

/// A set of globs, opaque here.
#[verifier::external_type_specification]
#[verifier::external_body]
pub struct ExGlobSet(globset::GlobSet);

/// A set of globs being put together, opaque here.
#[verifier::external_type_specification]
#[verifier::external_body]
pub struct ExGlobSetBuilder(globset::GlobSetBuilder);

/// The pattern that a glob was parsed from.
pub uninterp spec fn glob_pattern(g: Glob) -> Seq<char>;

/// The paths that a glob matches.
pub uninterp spec fn glob_paths(g: Glob) -> Set<Seq<char>>;

/// The patterns added to a builder, in order.
pub uninterp spec fn builder_patterns(b: GlobSetBuilder) -> Seq<Seq<char>>;

/// The paths that a glob added to a builder matches.
pub uninterp spec fn builder_paths(b: GlobSetBuilder) -> Set<Seq<char>>;

/// The paths that a set matches.
pub uninterp spec fn set_paths(s: GlobSet) -> Set<Seq<char>>;

/// A pattern whose groups of alternates are nested deeper than this is refused: what is made
/// of a group inside another goes one level down the stack.
pub const MAX_NESTING: u64 = 256;

/// How many groups of alternates are open after a pattern, at most. An opening brace always
/// counts; a closing one after a `[`, or right after a backslash, may be part of a class or
/// escaped, and does not.
pub open spec fn open_groups(pattern: Seq<char>) -> nat
    decreases pattern.len(),
{
    if pattern.len() == 0 {
        0
    } else {
        let front = pattern.drop_last();
        let n = open_groups(front);
        if pattern.last() == '{' {
            n + 1
        } else if pattern.last() == '}' && n > 0 && !front.contains('[') && front.last() != '\\' {
            (n - 1) as nat
        } else {
            n
        }
    }
}

/// How deep the groups of a pattern are nested, at most.
pub open spec fn nesting(pattern: Seq<char>) -> nat
    decreases pattern.len(),
{
    if pattern.len() == 0 || nesting(pattern.drop_last()) < open_groups(pattern) {
        open_groups(pattern)
    } else {
        nesting(pattern.drop_last())
    }
}

/// `globset::Glob::new`: parses a pattern, or gives the text of the error. Which patterns
/// parse, and which paths the glob then matches, is not stated: it depends on the separators
/// of the platform. Groups of alternates nest without a limit there, so their depth is bounded
/// here.
#[verifier::external_body]
fn parse_glob(pattern: &str) -> (r: Result<Glob, String>)
    requires
        nesting(pattern@) <= MAX_NESTING,
    ensures
        r matches Ok(g) ==> glob_pattern(g) == pattern@,
{
    match Glob::new(pattern) {
        Ok(g) => Ok(g),
        Err(e) => Err(e.to_string()),
    }
}

/// `globset::GlobSetBuilder::new`: nothing has been added yet.
#[verifier::external_body]
fn new_builder() -> (b: GlobSetBuilder)
    ensures
        builder_patterns(b) == Seq::<Seq<char>>::empty(),
        builder_paths(b) == Set::<Seq<char>>::empty(),
{
    GlobSetBuilder::new()
}

/// `globset::GlobSetBuilder::add`: the glob comes after those already there.
#[verifier::external_body]
fn add_glob(b: &mut GlobSetBuilder, g: Glob)
    ensures
        builder_patterns(*final(b)) == builder_patterns(*old(b)).push(glob_pattern(g)),
        builder_paths(*final(b)) == builder_paths(*old(b)).union(glob_paths(g)),
{
    b.add(g);
}

/// `globset::GlobSetBuilder::build`: the set of all globs added, which matches a path if any
/// of them does, or the text of the error. Of no globs it builds a set.
#[verifier::external_body]
fn build_set(b: &GlobSetBuilder) -> (r: Result<GlobSet, String>)
    ensures
        r matches Ok(s) ==> set_paths(s) == builder_paths(*b),
        builder_patterns(*b).len() == 0 ==> r is Ok,
{
    match b.build() {
        Ok(s) => Ok(s),
        Err(e) => Err(e.to_string()),
    }
}

/// `globset::GlobSet::is_match`: whether any glob of the set matches the path.
#[verifier::external_body]
pub(crate) fn matches_set(s: &GlobSet, path: &str) -> (r: bool)
    ensures
        r == set_paths(*s).contains(path@),
{
    s.is_match(path)
}

/// What is said of a pattern that was given to the option `what` and is no good.
pub open spec fn bad_glob(message: Seq<char>, what: Seq<char>) -> ErrorView {
    within(because(ErrorKind::BadGlob, message), what)
}

/// The error for a pattern given to the option `what`.
pub fn glob_error(message: String, what: String) -> (e: Error)
    ensures
        e@ == bad_glob(message@, what@),
{
    Error::because(ErrorKind::BadGlob, message).within(what)
}

/// What is said of a pattern that was given to the option `what` and is nested too deep. No
/// other error is of this kind.
pub open spec fn deep_glob(what: Seq<char>) -> ErrorView {
    within(plain(ErrorKind::DeepGlob), what)
}

/// Whether a pattern is nested too deep.
fn is_deep(pattern: &str) -> (r: bool)
    ensures
        r == (nesting(pattern@) > MAX_NESTING),
{
    let all = chars_of(pattern);
    let mut n: u64 = 0;
    let mut class = false;
    let mut i: usize = 0;
    assert(all@.take(0) =~= seq![]);
    while i < all.len()
        invariant
            i <= all@.len(),
            all@ == pattern@,
            n == open_groups(all@.take(i as int)),
            n <= MAX_NESTING,
            nesting(all@.take(i as int)) <= MAX_NESTING,
            class == all@.take(i as int).contains('['),
        decreases all@.len() - i,
    {
        let c = all[i];
        let ghost front = all@.take(i as int);
        let ghost part = all@.take(i + 1);
        assert(part.drop_last() =~= front);
        assert(part.last() == c);
        if c == '{' {
            n += 1;
        } else if c == '}' && n > 0 && !class && !(i > 0 && all[i - 1] == '\\') {
            n -= 1;
        }
        proof {
            if i > 0 {
                assert(front.last() == all@[i - 1]);
            } else {
                assert(front =~= seq![]);
            }
            assert(n == open_groups(part));
            if c == '[' {
                assert(part[i as int] == '[');
            }
            if front.contains('[') {
                let k = front.index_of('[');
                assert(part[k] == '[');
            }
            if part.contains('[') && c != '[' {
                let k = part.index_of('[');
                assert(front[k] == '[');
            }
        }
        if c == '[' {
            class = true;
        }
        if n > MAX_NESTING {
            proof {
                lemma_nesting_grows(pattern@, i + 1);
            }
            return true;
        }
        i += 1;
    }
    assert(all@.take(i as int) =~= pattern@);
    false
}

/// A pattern is nested at least as deep as its beginning.
proof fn lemma_nesting_grows(pattern: Seq<char>, k: int)
    requires
        0 <= k <= pattern.len(),
    ensures
        nesting(pattern.take(k)) <= nesting(pattern),
    decreases pattern.len(),
{
    if k == pattern.len() {
        assert(pattern.take(k) =~= pattern);
    } else {
        assert(pattern.drop_last().take(k) =~= pattern.take(k));
        lemma_nesting_grows(pattern.drop_last(), k);
    }
}

/// What a pattern was parsed to, its error by its text.
pub open spec fn parse_view(r: Result<Glob, String>) -> Result<Glob, Seq<char>> {
    match r {
        Ok(g) => Ok(g),
        Err(m) => Err(m@),
    }
}

/// What a pattern can be parsed to: a glob of that pattern, or an error.
pub open spec fn is_parse_of(r: Result<Glob, Seq<char>>, pattern: Seq<char>) -> bool {
    r matches Ok(g) ==> glob_pattern(g) == pattern
}

/// The globs that the patterns given to `--exclude` were parsed to, or the error for the first
/// that is no good.
pub open spec fn all_parsed(
    parsed: Seq<Result<Glob, Seq<char>>>,
    patterns: Seq<Seq<char>>,
) -> Result<Seq<Glob>, ErrorView>
    decreases parsed.len(),
{
    if parsed.len() == 0 {
        Ok(seq![])
    } else {
        match (all_parsed(parsed.drop_last(), patterns), parsed.last()) {
            (Err(e), _) => Err(e),
            (Ok(_), Err(m)) => Err(bad_glob(m, "--exclude "@ + patterns[parsed.len() - 1])),
            (Ok(front), Ok(g)) => Ok(front.push(g)),
        }
    }
}

/// What the patterns were parsed to, one by one.
pub open spec fn parse_views(s: Seq<Result<Glob, String>>) -> Seq<Result<Glob, Seq<char>>> {
    Seq::new(s.len(), |i: int| parse_view(s[i]))
}

proof fn lemma_parsed_fails(
    parsed: Seq<Result<Glob, Seq<char>>>,
    patterns: Seq<Seq<char>>,
    k: int,
)
    requires
        0 <= k <= parsed.len(),
        all_parsed(parsed.take(k), patterns) is Err,
    ensures
        all_parsed(parsed, patterns) == all_parsed(parsed.take(k), patterns),
    decreases parsed.len(),
{
    if k == parsed.len() {
        assert(parsed.take(k) =~= parsed);
    } else {
        assert(parsed.drop_last().take(k) =~= parsed.take(k));
        lemma_parsed_fails(parsed.drop_last(), patterns, k);
    }
}

/// The globs that the patterns given to `--exclude` were parsed to, or the error for the first
/// that is no good, which names it.
pub fn exclude_globs(parsed: Vec<Result<Glob, String>>, patterns: &Vec<String>) -> (r: Result<
    Vec<Glob>,
    Error,
>)
    requires
        parsed@.len() == patterns@.len(),
    ensures
        match r {
            Ok(v) => all_parsed(parse_views(parsed@), views(patterns@)) == Ok::<
                Seq<Glob>,
                ErrorView,
            >(v@),
            Err(e) => all_parsed(parse_views(parsed@), views(patterns@)) == Err::<
                Seq<Glob>,
                ErrorView,
            >(e@),
        },
{
    let ghost all = parse_views(parsed@);
    let ghost texts = views(patterns@);
    let ghost given = parsed@;
    let mut out: Vec<Glob> = Vec::new();
    let mut i: usize = 0;
    assert(all.take(0) =~= seq![]);
    assert(out@ =~= seq![]);
    for x in it: parsed
        invariant
            it.seq() == given,
            all == parse_views(given),
            texts == views(patterns@),
            given.len() == patterns@.len(),
            i == it.index(),
            all_parsed(all.take(it.index()), texts) == Ok::<Seq<Glob>, ErrorView>(out@),
    {
        let ghost part = all.take(i + 1);
        assert(part.drop_last() =~= all.take(i as int));
        assert(part.last() == parse_view(x));
        assert(i < patterns.len());
        match x {
            Ok(g) => {
                out.push(g);
            },
            Err(m) => {
                let what = Text::of("--exclude ").lit(patterns[i].as_str()).done();
                proof {
                    lemma_parsed_fails(all, texts, i + 1);
                }
                return Err(glob_error(m, what));
            },
        }
        i += 1;
    }
    assert(all.take(all.len() as int) =~= all);
    Ok(out)
}

/// The set that was built, or the error for what is no good, under the option `what`.
pub fn set_or_error(built: Result<GlobSet, String>, what: String) -> (r: Result<GlobSet, Error>)
    ensures
        match (built, r) {
            (Ok(a), Ok(b)) => a == b,
            (Err(m), Err(e)) => e@ == bad_glob(m@, what@),
            _ => false,
        },
{
    match built {
        Ok(s) => Ok(s),
        Err(m) => Err(glob_error(m, what)),
    }
}

/// The set matches what any of the globs does, and these were parsed from the patterns, one
/// from each.
pub open spec fn is_set_of(s: GlobSet, patterns: Seq<Seq<char>>, globs: Seq<Glob>) -> bool {
    &&& globs.len() == patterns.len()
    &&& forall|i: int| 0 <= i < globs.len() ==> glob_pattern(#[trigger] globs[i]) == patterns[i]
    &&& forall|p: Seq<char>| #[trigger]
        set_paths(s).contains(p) <==> exists|i: int|
            0 <= i < globs.len() && glob_paths(#[trigger] globs[i]).contains(p)
}

/// The set is one of the patterns: it matches what any of them does.
pub open spec fn is_made_of(s: GlobSet, patterns: Seq<Seq<char>>) -> bool {
    exists|globs: Seq<Glob>| is_set_of(s, patterns, globs)
}

/// The paths that one of the globs matches.
spec fn union_of(globs: Seq<Glob>) -> Set<Seq<char>>
    decreases globs.len(),
{
    if globs.len() == 0 {
        Set::empty()
    } else {
        union_of(globs.drop_last()).union(glob_paths(globs.last()))
    }
}

proof fn lemma_union(globs: Seq<Glob>, p: Seq<char>)
    ensures
        union_of(globs).contains(p) <==> exists|i: int|
            0 <= i < globs.len() && glob_paths(#[trigger] globs[i]).contains(p),
    decreases globs.len(),
{
    if globs.len() > 0 {
        let front = globs.drop_last();
        lemma_union(front, p);
        if union_of(front).contains(p) {
            let i = choose|i: int|
                0 <= i < front.len() && glob_paths(#[trigger] front[i]).contains(p);
            assert(globs[i] == front[i]);
        }
        if exists|i: int| 0 <= i < globs.len() && glob_paths(#[trigger] globs[i]).contains(p) {
            let i = choose|i: int|
                0 <= i < globs.len() && glob_paths(#[trigger] globs[i]).contains(p);
            if i < front.len() {
                assert(front[i] == globs[i]);
            }
        }
    }
}

proof fn lemma_set_of(s: GlobSet, patterns: Seq<Seq<char>>, globs: Seq<Glob>)
    requires
        globs.len() == patterns.len(),
        forall|i: int| 0 <= i < globs.len() ==> glob_pattern(#[trigger] globs[i]) == patterns[i],
        set_paths(s) == union_of(globs),
    ensures
        is_made_of(s, patterns),
{
    assert forall|p: Seq<char>| #[trigger] set_paths(s).contains(p) <==> exists|i: int|
        0 <= i < globs.len() && glob_paths(#[trigger] globs[i]).contains(p) by {
        lemma_union(globs, p);
    }
    assert(is_set_of(s, patterns, globs));
}

/// What can become of the patterns given to `--exclude`: they were parsed, one by one, and the
/// first error counts; or the set could not be built of them.
pub open spec fn is_exclude_error(e: ErrorView, patterns: Seq<Seq<char>>) -> bool {
    ||| exists|parsed: Seq<Result<Glob, Seq<char>>>|
        {
            &&& parsed.len() == patterns.len()
            &&& forall|i: int|
                0 <= i < patterns.len() ==> is_parse_of(#[trigger] parsed[i], patterns[i])
            &&& #[trigger] all_parsed(parsed, patterns) == Err::<Seq<Glob>, ErrorView>(e)
        }
    ||| exists|m: Seq<char>| e == #[trigger] bad_glob(m, seq![])
}

proof fn lemma_all_parsed(
    parsed: Seq<Result<Glob, Seq<char>>>,
    patterns: Seq<Seq<char>>,
    globs: Seq<Glob>,
)
    requires
        all_parsed(parsed, patterns) == Ok::<Seq<Glob>, ErrorView>(globs),
    ensures
        globs.len() == parsed.len(),
        forall|i: int|
            0 <= i < globs.len() ==> parsed[i] == Ok::<Glob, Seq<char>>(#[trigger] globs[i]),
    decreases parsed.len(),
{
    if parsed.len() > 0 {
        assert(globs.drop_last() =~= all_parsed(parsed.drop_last(), patterns)->Ok_0);
        lemma_all_parsed(parsed.drop_last(), patterns, globs.drop_last());
        assert forall|i: int| 0 <= i < globs.len() implies parsed[i] == Ok::<Glob, Seq<char>>(
            #[trigger] globs[i],
        ) by {
            if i < globs.len() - 1 {
                assert(globs.drop_last()[i] == globs[i]);
                assert(parsed.drop_last()[i] == parsed[i]);
            }
        }
    }
}

/// The first of the patterns that is nested too deep, at number `k` or after.
pub open spec fn first_deep(patterns: Seq<Seq<char>>, k: int) -> Option<Seq<char>>
    decreases patterns.len() - k,
{
    if k >= patterns.len() {
        None
    } else if nesting(patterns[k]) > MAX_NESTING {
        Some(patterns[k])
    } else {
        first_deep(patterns, k + 1)
    }
}

/// Where no pattern is nested too deep, none is found.
proof fn lemma_none_deep(patterns: Seq<Seq<char>>, k: int, i: int)
    requires
        first_deep(patterns, k) is None,
        0 <= k <= i < patterns.len(),
    ensures
        nesting(patterns[i]) <= MAX_NESTING,
    decreases patterns.len() - k,
{
    if k < i {
        lemma_none_deep(patterns, k + 1, i);
    }
}

/// Checks the patterns given to `--exclude` before any of them is parsed: the first that is
/// nested too deep is an error.
fn check_nesting(patterns: &Vec<String>) -> (r: Result<(), Error>)
    ensures
        match r {
            Ok(_) => first_deep(views(patterns@), 0) is None,
            Err(e) => first_deep(views(patterns@), 0) matches Some(p) && e@ == deep_glob(
                "--exclude "@ + p,
            ),
        },
{
    let ghost texts = views(patterns@);
    let mut i: usize = 0;
    while i < patterns.len()
        invariant
            i <= patterns@.len(),
            texts == views(patterns@),
            first_deep(texts, 0) == first_deep(texts, i as int),
        decreases patterns@.len() - i,
    {
        if is_deep(patterns[i].as_str()) {
            let what = Text::of("--exclude ").lit(patterns[i].as_str()).done();
            return Err(Error::plain(ErrorKind::DeepGlob).within(what));
        }
        i += 1;
    }
    Ok(())
}

/// The set of the patterns given to `--exclude`: it matches what any of them does, and where
/// there are none, nothing. The first pattern that is nested too deep is an error of its own
/// kind, which comes before any other and on no other account.
pub fn exclude_set(patterns: &Vec<String>) -> (r: Result<GlobSet, Error>)
    ensures
        patterns@.len() == 0 ==> r is Ok && set_paths(r->Ok_0).is_empty(),
        (exists|i: int| 0 <= i < patterns@.len() && nesting(#[trigger] patterns@[i]@) > MAX_NESTING)
            <==> (r matches Err(e) && e@.kind == ErrorKind::DeepGlob),
        match first_deep(views(patterns@), 0) {
            Some(p) => r matches Err(e) && e@ == deep_glob("--exclude "@ + p),
            None => match r {
                Ok(s) => is_made_of(s, views(patterns@)),
                Err(e) => is_exclude_error(e@, views(patterns@)),
            },
        },
{
    let ghost texts = views(patterns@);
    match check_nesting(patterns) {
        Ok(_) => {},
        Err(e) => {
            proof {
                lemma_deep_is_there(texts, 0);
                let i = choose|i: int|
                    0 <= i < texts.len() && nesting(#[trigger] texts[i]) > MAX_NESTING;
                assert(nesting(patterns@[i]@) > MAX_NESTING);
            }
            return Err(e);
        },
    }
    proof {
        assert forall|k: int| 0 <= k < patterns@.len() implies nesting(#[trigger] patterns@[k]@)
            <= MAX_NESTING by {
            lemma_none_deep(texts, 0, k);
            assert(texts[k] == patterns@[k]@);
        }
    }
    let mut parsed: Vec<Result<Glob, String>> = Vec::new();
    let mut i: usize = 0;
    while i < patterns.len()
        invariant
            i <= patterns@.len(),
            i == parsed@.len(),
            texts == views(patterns@),
            forall|k: int|
                0 <= k < patterns@.len() ==> nesting(#[trigger] patterns@[k]@) <= MAX_NESTING,
            forall|k: int|
                0 <= k < i ==> is_parse_of(#[trigger] parse_views(parsed@)[k], texts[k]),
        decreases patterns@.len() - i,
    {
        let x = parse_glob(patterns[i].as_str());
        let ghost before = parse_views(parsed@);
        let ghost v = parse_view(x);
        parsed.push(x);
        assert(parse_views(parsed@) =~= before.push(v));
        i += 1;
    }
    let ghost all = parse_views(parsed@);
    let globs = match exclude_globs(parsed, patterns) {
        Ok(v) => v,
        Err(e) => {
            proof {
                lemma_parse_error(all, texts);
            }
            return Err(e);
        },
    };
    let ghost given = globs@;
    proof {
        lemma_all_parsed(all, texts, given);
        assert forall|k: int| 0 <= k < given.len() implies glob_pattern(#[trigger] given[k])
            == texts[k] by {
            assert(is_parse_of(all[k], texts[k]));
        }
    }
    let mut b = new_builder();
    assert(given.take(0) =~= seq![]);
    for g in it: globs
        invariant
            it.seq() == given,
            builder_patterns(b).len() == it.index(),
            builder_paths(b) == union_of(given.take(it.index())),
    {
        let ghost part = given.take(it.index() + 1);
        assert(part.drop_last() =~= given.take(it.index()));
        assert(part.last() == g);
        add_glob(&mut b, g);
    }
    assert(given.take(given.len() as int) =~= given);
    let built = build_set(&b);
    let none = String::new();
    proof {
        assert(none@ =~= seq![]);
        if built is Ok {
            lemma_set_of(built->Ok_0, texts, given);
        }
    }
    set_or_error(built, none)
}

/// One that is found is one of them.
proof fn lemma_deep_is_there(patterns: Seq<Seq<char>>, k: int)
    requires
        0 <= k,
        first_deep(patterns, k) is Some,
    ensures
        exists|i: int| 0 <= i < patterns.len() && nesting(#[trigger] patterns[i]) > MAX_NESTING,
    decreases patterns.len() - k,
{
    if nesting(patterns[k]) <= MAX_NESTING {
        lemma_deep_is_there(patterns, k + 1);
    }
}

/// An error in parsing is of the kind for that.
proof fn lemma_parse_error(parsed: Seq<Result<Glob, Seq<char>>>, patterns: Seq<Seq<char>>)
    requires
        all_parsed(parsed, patterns) is Err,
    ensures
        (all_parsed(parsed, patterns)->Err_0).kind == ErrorKind::BadGlob,
    decreases parsed.len(),
{
    if all_parsed(parsed.drop_last(), patterns) is Err {
        lemma_parse_error(parsed.drop_last(), patterns);
    }
}

/// The set of the one pattern given to `--name`. A pattern that is nested too deep is an error
/// of its own kind, and nothing else is.
pub fn name_set(pattern: &str) -> (r: Result<GlobSet, Error>)
    ensures
        nesting(pattern@) > MAX_NESTING <==> (r matches Err(e) && e@ == deep_glob("--name"@)),
        match r {
            Ok(s) => exists|g: Glob|
                glob_pattern(g) == pattern@ && set_paths(s) == #[trigger] glob_paths(g),
            Err(e) => nesting(pattern@) <= MAX_NESTING ==> exists|m: Seq<char>|
                e@ == #[trigger] bad_glob(m, "--name"@),
        },
{
    if is_deep(pattern) {
        return Err(Error::plain(ErrorKind::DeepGlob).within("--name".to_owned()));
    }
    let mut b = new_builder();
    let built = match parse_glob(pattern) {
        Ok(g) => {
            assert(Set::<Seq<char>>::empty().union(glob_paths(g)) =~= glob_paths(g));
            add_glob(&mut b, g);
            build_set(&b)
        },
        Err(m) => Err(m),
    };
    set_or_error(built, "--name".to_owned())
}

} // verus!
