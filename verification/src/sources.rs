//! Source paths relative to a theme root, and where sources come from.
//!
//! A source path is written with `/` separators. Empty and `.` components
//! are dropped, `..` removes the previous component, and the result must be
//! a non-empty path that stays inside the root.
use crate::diagnostic::joined;
use crate::text::{
    chars_of, owned, push_char, segments_eq, segments_less, segs_less, text_eq, texts, IntoText,
};
use crate::token_path::{
    lemma_joined_first, lemma_split_joined, lemma_split_on_no_separator, lemma_split_on_nonempty,
    split_on,
};
use crate::path_map::{KeyedMap, SegmentKey};
use vstd::prelude::*;

verus! {

/// Reason a source path cannot be used in the root-relative namespace.
#[derive(Clone, Copy, Debug, PartialEq, Eq)]
pub enum InvalidSourcePath {
    /// No filename remains after normalization.
    Empty,
    /// Absolute paths are not portable within a theme root.
    Absolute,
    /// A parent component traverses above the theme root.
    EscapesRoot,
}

impl InvalidSourcePath {
    pub open spec fn message_text(self) -> Seq<char> {
        match self {
            InvalidSourcePath::Empty => "source path is empty"@,
            InvalidSourcePath::Absolute => "source path must be relative to the theme root"@,
            InvalidSourcePath::EscapesRoot => "source path escapes the theme root"@,
        }
    }

    /// Renders the reason.
    pub fn to_string(&self) -> (r: String)
        ensures
            r@ == self.message_text(),
    {
        match self {
            InvalidSourcePath::Empty => owned("source path is empty"),
            InvalidSourcePath::Absolute => owned("source path must be relative to the theme root"),
            InvalidSourcePath::EscapesRoot => owned("source path escapes the theme root"),
        }
    }
}

/// The components of a path after one more part: empty and `.` parts are
/// dropped, `..` removes the last component.
pub open spec fn step_components(
    done: Result<Seq<Seq<char>>, InvalidSourcePath>,
    part: Seq<char>,
) -> Result<Seq<Seq<char>>, InvalidSourcePath> {
    match done {
        Err(e) => Err(e),
        Ok(stack) => if part.len() == 0 || part == "."@ {
            Ok(stack)
        } else if part == ".."@ {
            if stack.len() == 0 {
                Err(InvalidSourcePath::EscapesRoot)
            } else {
                Ok(stack.drop_last())
            }
        } else {
            Ok(stack.push(part))
        },
    }
}

/// The components left by applying `parts`, in order, on top of `start`.
pub open spec fn fold_from(start: Seq<Seq<char>>, parts: Seq<Seq<char>>) -> Result<
    Seq<Seq<char>>,
    InvalidSourcePath,
>
    decreases parts.len(),
{
    if parts.len() == 0 {
        Ok(start)
    } else {
        step_components(fold_from(start, parts.drop_last()), parts.last())
    }
}

/// A folded path that must keep at least one component.
pub open spec fn settled(r: Result<Seq<Seq<char>>, InvalidSourcePath>) -> Result<
    Seq<Seq<char>>,
    InvalidSourcePath,
> {
    match r {
        Ok(stack) => if stack.len() == 0 {
            Err(InvalidSourcePath::Empty)
        } else {
            Ok(stack)
        },
        Err(e) => Err(e),
    }
}

/// The normalized components of a path written as `text`.
pub open spec fn normalized(text: Seq<char>) -> Result<Seq<Seq<char>>, InvalidSourcePath> {
    if text.len() > 0 && text[0] == '/' {
        Err(InvalidSourcePath::Absolute)
    } else {
        settled(fold_from(Seq::empty(), split_on(text, '/')))
    }
}

/// The components of `reference` written inside a document at `owner`:
/// the reference is read from the owner's directory.
pub open spec fn resolved(owner: Seq<Seq<char>>, reference: Seq<char>) -> Result<
    Seq<Seq<char>>,
    InvalidSourcePath,
> {
    if reference.len() > 0 && reference[0] == '/' {
        Err(InvalidSourcePath::Absolute)
    } else {
        settled(fold_from(owner.drop_last(), split_on(reference, '/')))
    }
}

/// A component of a normalized path: not empty, not `.` or `..`, and
/// without `/`.
pub open spec fn clean_component(c: Seq<char>) -> bool {
    c.len() > 0 && c != "."@ && c != ".."@ && !c.contains('/')
}

/// Components that are all clean.
pub open spec fn all_clean(p: Seq<Seq<char>>) -> bool {
    forall|i: int| 0 <= i < p.len() ==> clean_component(#[trigger] p[i])
}

/// The components of a normalized path: at least one, all clean.
pub open spec fn clean_path(p: Seq<Seq<char>>) -> bool {
    p.len() > 0 && all_clean(p)
}

/// A path result agrees with a result on components.
pub open spec fn source_outcome(
    r: Result<SourcePath, InvalidSourcePath>,
    o: Result<Seq<Seq<char>>, InvalidSourcePath>,
) -> bool {
    match (r, o) {
        (Ok(p), Ok(q)) => p@ == q,
        (Err(e), Err(f)) => e == f,
        _ => false,
    }
}

/// A normalized, root-relative source path.
#[derive(Debug, PartialEq, Eq)]
pub struct SourcePath {
    segments: Vec<String>,
}

impl SourcePath {
    /// A normalized path has at least one component.
    #[verifier::type_invariant]
    spec fn wf(self) -> bool {
        clean_path(texts(self.segments@))
    }
}

impl View for SourcePath {
    type V = Seq<Seq<char>>;

    closed spec fn view(&self) -> Seq<Seq<char>> {
        texts(self.segments@)
    }
}

/// The text of a path: its components joined with `/`.
pub open spec fn path_text(p: Seq<Seq<char>>) -> Seq<char> {
    joined(p, "/"@)
}

/// Splits text at every occurrence of `c`, as `str::split` does.
pub(crate) fn split_text(value: &str, c: char) -> (r: Vec<String>)
    ensures
        texts(r@) == split_on(value@, c),
{
    let chars = chars_of(value);
    let mut parts: Vec<String> = Vec::new();
    let mut current = String::new();
    let mut i: usize = 0;
    assert(chars@.take(0) =~= Seq::<char>::empty());
    while i < chars.len()
        invariant
            chars@ == value@,
            i <= chars@.len(),
            texts(parts@).push(current@) == split_on(chars@.take(i as int), c),
        decreases chars@.len() - i,
    {
        let d = chars[i];
        let ghost before = chars@.take(i as int);
        assert(chars@.take(i + 1).drop_last() =~= before);
        proof {
            lemma_split_on_nonempty(before, c);
        }
        if d == c {
            parts.push(current);
            current = String::new();
            assert(texts(parts@).push(current@) =~= split_on(before, c).push(Seq::<char>::empty()));
        } else {
            push_char(&mut current, d);
            assert(texts(parts@).push(current@) =~= split_on(before, c).update(
                split_on(before, c).len() - 1,
                split_on(before, c).last().push(d),
            ));
        }
        i = i + 1;
    }
    let ghost before_push = texts(parts@).push(current@);
    parts.push(current);
    assert(chars@.take(chars@.len() as int) =~= chars@);
    assert(texts(parts@) =~= before_push);
    parts
}

/// Applies path parts on top of the components `start`.
pub(crate) fn apply_parts(start: Vec<String>, parts: &Vec<String>) -> (r: Result<Vec<String>, InvalidSourcePath>)
    ensures
        match (r, fold_from(texts(start@), texts(parts@))) {
            (Ok(v), Ok(q)) => texts(v@) == q,
            (Err(e), Err(f)) => e == f,
            _ => false,
        },
{
    let ghost origin = texts(start@);
    let mut stack = start;
    let mut i: usize = 0;
    proof {
        reveal_strlit(".");
        reveal_strlit("..");
    }
    assert(texts(parts@).take(0) =~= Seq::<Seq<char>>::empty());
    while i < parts.len()
        invariant
            origin == texts(start@),
            i <= parts@.len(),
            fold_from(origin, texts(parts@).take(i as int)) == Ok::<Seq<Seq<char>>, InvalidSourcePath>(
                texts(stack@),
            ),
        decreases parts@.len() - i,
    {
        let part = parts[i].as_str();
        assert(texts(parts@).take(i + 1).drop_last() =~= texts(parts@).take(i as int));
        assert(texts(parts@).take(i + 1).last() == part@);
        if part.unicode_len() == 0 || text_eq(part, ".") {
        } else if text_eq(part, "..") {
            if stack.len() == 0 {
                proof {
                    assert(fold_from(origin, texts(parts@).take(i + 1)) == Err::<Seq<Seq<char>>, InvalidSourcePath>(
                        InvalidSourcePath::EscapesRoot,
                    ));
                    lemma_fold_error_sticks(origin, texts(parts@), i + 1);
                    assert(texts(parts@).take(parts@.len() as int) =~= texts(parts@));
                }
                return Err(InvalidSourcePath::EscapesRoot);
            }
            let ghost before = stack@;
            stack.pop();
            assert(texts(stack@) =~= texts(before).drop_last());
        } else {
            let ghost before = stack@;
            stack.push(owned(part));
            assert(texts(stack@) =~= texts(before).push(part@));
        }
        i = i + 1;
    }
    assert(texts(parts@).take(parts@.len() as int) =~= texts(parts@));
    Ok(stack)
}

/// Turns folded components into a path, refusing an empty one.
fn settle(r: Result<Vec<String>, InvalidSourcePath>) -> (p: Result<SourcePath, InvalidSourcePath>)
    requires
        r matches Ok(v) ==> all_clean(texts(v@)),
    ensures
        source_outcome(
            p,
            settled(
                match r {
                    Ok(v) => Ok(texts(v@)),
                    Err(e) => Err(e),
                },
            ),
        ),
{
    match r {
        Ok(stack) => if stack.len() == 0 {
            Err(InvalidSourcePath::Empty)
        } else {
            Ok(SourcePath { segments: stack })
        },
        Err(e) => Err(e),
    }
}

impl SourcePath {
    /// Normalizes a path written relative to the theme root.
    pub fn normalize(text: &str) -> (r: Result<SourcePath, InvalidSourcePath>)
        ensures
            source_outcome(r, normalized(text@)),
            r matches Ok(p) ==> clean_path(p@),
    {
        if text.unicode_len() > 0 && text.get_char(0) == '/' {
            return Err(InvalidSourcePath::Absolute);
        }
        let parts = split_text(text, '/');
        assert(texts(Seq::<String>::empty()) =~= Seq::<Seq<char>>::empty());
        let folded = apply_parts(Vec::new(), &parts);
        proof {
            lemma_split_on_no_separator(text@, '/');
            lemma_fold_clean(Seq::empty(), texts(parts@));
        }
        settle(folded)
    }

    /// Resolves `reference`, written inside the document at this path,
    /// against the document's directory.
    pub fn resolve(&self, reference: &str) -> (r: Result<SourcePath, InvalidSourcePath>)
        ensures
            source_outcome(r, resolved(self@, reference@)),
            r matches Ok(p) ==> clean_path(p@),
    {
        proof {
            use_type_invariant(self);
        }
        if reference.unicode_len() > 0 && reference.get_char(0) == '/' {
            return Err(InvalidSourcePath::Absolute);
        }
        let parts = split_text(reference, '/');
        let keep = self.segments.len() - 1;
        let mut start: Vec<String> = Vec::new();
        let mut i: usize = 0;
        while i < keep
            invariant
                keep == self.segments@.len() - 1,
                i <= keep,
                start@ == self.segments@.subrange(0, i as int),
            decreases keep - i,
        {
            start.push(self.segments[i].clone());
            i = i + 1;
        }
        assert(texts(start@) =~= self@.drop_last());
        let folded = apply_parts(start, &parts);
        proof {
            lemma_split_on_no_separator(reference@, '/');
            lemma_fold_clean(self@.drop_last(), split_on(reference@, '/'));
        }
        settle(folded)
    }

    /// Renders the path with `/` separators.
    pub fn to_string(&self) -> (r: String)
        ensures
            r@ == path_text(self@),
    {
        crate::diagnostic::join_texts(&self.segments, "/")
    }

    /// Whether two paths are the same.
    pub fn same(&self, other: &SourcePath) -> (r: bool)
        ensures
            r == (self@ == other@),
    {
        segments_eq(&self.segments, &other.segments)
    }

    /// Whether `self` sorts before `other`, component by component.
    pub fn less(&self, other: &SourcePath) -> (r: bool)
        ensures
            r == segs_less(self@, other@),
    {
        segments_less(&self.segments, &other.segments)
    }

    /// Copies the path.
    pub fn duplicate(&self) -> (r: SourcePath)
        ensures
            r@ == self@,
    {
        proof {
            use_type_invariant(self);
        }
        SourcePath { segments: crate::text::copy_texts(&self.segments) }
    }
}

impl SegmentKey for SourcePath {
    fn key_less(&self, other: &SourcePath) -> (r: bool) {
        self.less(other)
    }

    fn key_same(&self, other: &SourcePath) -> (r: bool) {
        self.same(other)
    }
}

/// Provider-independent source read failure.
#[derive(Clone, Debug, PartialEq, Eq)]
pub struct SourceReadError {
    message: String,
}

impl SourceReadError {
    pub closed spec fn message_of(&self) -> Seq<char> {
        self.message@
    }

    /// Creates a read failure with a user-facing explanation.
    pub fn new<T: IntoText>(message: T) -> (r: SourceReadError)
        ensures
            r.message_of() == message.text_view(),
    {
        SourceReadError { message: message.into_text() }
    }

    /// Renders the explanation.
    pub fn to_string(&self) -> (r: String)
        ensures
            r@ == self.message_of(),
    {
        self.message.clone()
    }
}

/// Reads UTF-8 theme sources from a root-relative path namespace.
///
/// A provider gives the same text for a path each time it is read: the
/// contracts of this crate describe a compilation by what the provider holds.
/// One whose sources change between reads (files edited during a
/// compilation) meets them only while its sources stay as they are.
pub trait SourceProvider {
    /// The text this provider holds at `path`, or `None` where it holds none.
    spec fn source_at(&self, path: SourcePath) -> Option<String>;

    /// Reads one normalized, relative source path: its text, or a failure
    /// where the provider holds none.
    fn read(&self, path: &SourcePath) -> (r: Result<String, SourceReadError>)
        ensures
            match r {
                Ok(t) => self.source_at(*path) is Some && self.source_at(*path)->0@ == t@,
                Err(_) => self.source_at(*path) is None,
            },
    ;
}

/// The message for a path that an in-memory provider does not hold.
pub open spec fn missing_source_text(path: Seq<Seq<char>>) -> Seq<char> {
    "source '"@ + path_text(path) + "' does not exist"@
}

/// In-memory sources using the same root-relative path namespace as files.
pub struct MemorySourceProvider {
    sources: KeyedMap<SourcePath, String>,
}

impl View for MemorySourceProvider {
    type V = Map<Seq<Seq<char>>, Seq<char>>;

    closed spec fn view(&self) -> Map<Seq<Seq<char>>, Seq<char>> {
        self.sources@.map_values(|s: String| s@)
    }
}

impl MemorySourceProvider {
    /// Creates an empty provider.
    pub fn new() -> (r: MemorySourceProvider)
        ensures
            r@ == Map::<Seq<Seq<char>>, Seq<char>>::empty(),
    {
        let r = MemorySourceProvider { sources: KeyedMap::new() };
        assert(r@ =~= Map::<Seq<Seq<char>>, Seq<char>>::empty());
        r
    }

    /// Adds or replaces one source after validating its root-relative path,
    /// returning the source it replaced.
    pub fn insert<T: IntoText>(&mut self, path: &str, source: T) -> (r: Result<
        Option<String>,
        InvalidSourcePath,
    >)
        ensures
            match normalized(path@) {
                Err(e) => r == Err::<Option<String>, InvalidSourcePath>(e) && final(self)@ == old(
                    self,
                )@,
                Ok(p) => r matches Ok(previous) && final(self)@ == old(self)@.insert(
                    p,
                    source.text_view(),
                ) && match previous {
                    Some(s) => old(self)@.contains_key(p) && s@ == old(self)@[p],
                    None => !old(self)@.contains_key(p),
                },
            },
    {
        let key = match SourcePath::normalize(path) {
            Ok(key) => key,
            Err(e) => return Err(e),
        };
        let ghost k = key@;
        let text = source.into_text();
        let ghost t = text@;
        let previous = self.sources.insert(key, text);
        assert(self@ =~= old(self)@.insert(k, t));
        Ok(previous)
    }
}

impl MemorySourceProvider {
    /// The provider holds at a path what was inserted under a spelling of it.
    pub proof fn lemma_source_at(self, path: SourcePath)
        ensures
            self.source_at(path) is Some <==> self@.contains_key(path@),
            self.source_at(path) is Some ==> self.source_at(path)->0@ == self@[path@],
    {
    }
}

impl Default for MemorySourceProvider {
    fn default() -> (r: MemorySourceProvider)
        ensures
            r@ == Map::<Seq<Seq<char>>, Seq<char>>::empty(),
    {
        MemorySourceProvider::new()
    }
}

impl SourceProvider for MemorySourceProvider {
    closed spec fn source_at(&self, path: SourcePath) -> Option<String> {
        if self.sources@.contains_key(path@) {
            Some(self.sources@[path@])
        } else {
            None
        }
    }

    fn read(&self, path: &SourcePath) -> (r: Result<String, SourceReadError>)
        ensures
            match r {
                Ok(s) => self@.contains_key(path@) && s@ == self@[path@],
                Err(e) => !self@.contains_key(path@) && e.message_of() == missing_source_text(path@),
            },
    {
        match self.sources.get(path) {
            Some(text) => Ok(text.clone()),
            None => {
                let mut message = owned("source '");
                message.append(path.to_string().as_str());
                message.append("' does not exist");
                Err(SourceReadError::new(message))
            },
        }
    }
}

/// Folding parts without `/` on top of clean components leaves clean components.
pub proof fn lemma_fold_clean(start: Seq<Seq<char>>, parts: Seq<Seq<char>>)
    requires
        all_clean(start),
        forall|i: int| 0 <= i < parts.len() ==> !(#[trigger] parts[i]).contains('/'),
    ensures
        fold_from(start, parts) matches Ok(stack) ==> all_clean(stack),
    decreases parts.len(),
{
    if parts.len() > 0 {
        lemma_fold_clean(start, parts.drop_last());
        assert(!parts[parts.len() - 1].contains('/'));
        reveal_strlit(".");
        reveal_strlit("..");
        match fold_from(start, parts.drop_last()) {
            Ok(stack) => {
                let p = parts.last();
                if !(p.len() == 0 || p == "."@) && p != ".."@ {
                    assert forall|i: int| 0 <= i < stack.push(p).len() implies clean_component(#[trigger] stack.push(p)[i]) by {
                        if i < stack.len() {
                            assert(stack.push(p)[i] == stack[i]);
                        }
                    }
                } else if p == ".."@ && stack.len() > 0 {
                    assert forall|i: int| 0 <= i < stack.drop_last().len() implies clean_component(#[trigger] stack.drop_last()[i]) by {
                        assert(stack.drop_last()[i] == stack[i]);
                    }
                }
            },
            Err(_) => {},
        }
    }
}

/// Folding clean components leaves them as they are.
proof fn lemma_fold_clean_identity(p: Seq<Seq<char>>)
    requires
        all_clean(p),
    ensures
        fold_from(Seq::empty(), p) == Ok::<Seq<Seq<char>>, InvalidSourcePath>(p),
    decreases p.len(),
{
    if p.len() > 0 {
        assert forall|i: int| 0 <= i < p.drop_last().len() implies clean_component(#[trigger] p.drop_last()[i]) by {
            assert(p.drop_last()[i] == p[i]);
        }
        lemma_fold_clean_identity(p.drop_last());
        assert(clean_component(p[p.len() - 1]));
        assert(p.drop_last().push(p.last()) =~= p);
    } else {
        assert(p =~= Seq::<Seq<char>>::empty());
    }
}

/// A normalized path, written out, normalizes to itself: the root-relative
/// namespace has one spelling for each path.
pub proof fn lemma_normalize_round_trip(p: Seq<Seq<char>>)
    requires
        clean_path(p),
    ensures
        normalized(path_text(p)) == Ok::<Seq<Seq<char>>, InvalidSourcePath>(p),
{
    assert forall|i: int| 0 <= i < p.len() implies !(#[trigger] p[i]).contains('/') by {
        assert(clean_component(p[i]));
    }
    reveal_strlit("/");
    assert("/"@ =~= seq!['/']);
    lemma_split_joined(p, '/');
    lemma_fold_clean_identity(p);
    assert(clean_component(p[0]));
    lemma_joined_first(p, "/"@);
    assert(p[0][0] != '/') by {
        if p[0][0] == '/' {
            assert(p[0].contains('/'));
        }
    }
}

/// A source inserted under a path is read back under any spelling of that
/// path: inserting keys the provider by the normalized path, and reading
/// looks the normalized path up.
pub proof fn lemma_read_after_insert(
    before: Map<Seq<Seq<char>>, Seq<char>>,
    written: Seq<char>,
    source: Seq<char>,
    read: Seq<char>,
)
    requires
        normalized(written) is Ok,
        normalized(read) == normalized(written),
    ensures
        before.insert(normalized(written)->Ok_0, source).contains_key(normalized(read)->Ok_0),
        before.insert(normalized(written)->Ok_0, source)[normalized(read)->Ok_0] == source,
{
}

/// Once the parts fold to an error, more parts keep it.
proof fn lemma_fold_error_sticks(start: Seq<Seq<char>>, parts: Seq<Seq<char>>, k: int)
    requires
        0 <= k <= parts.len(),
        fold_from(start, parts.take(k)) is Err,
    ensures
        fold_from(start, parts) == fold_from(start, parts.take(k)),
    decreases parts.len() - k,
{
    if k < parts.len() {
        assert(parts.take(k + 1).drop_last() =~= parts.take(k));
        lemma_fold_error_sticks(start, parts, k + 1);
    } else {
        assert(parts.take(k) =~= parts);
    }
}

} // verus!
