//! Dot-separated token paths.
use crate::diagnostic::joined;
use crate::text::{
    chars_of, copy_texts, decimal, owned, push_char, push_decimal, segments_eq, segments_less,
    segs_less, texts,
};
use vstd::prelude::*;

verus! {

/// The parts of `s` between occurrences of `c`, as `str::split` yields them.
pub open spec fn split_on(s: Seq<char>, c: char) -> Seq<Seq<char>>
    decreases s.len(),
{
    if s.len() == 0 {
        seq![Seq::<char>::empty()]
    } else {
        let init = split_on(s.drop_last(), c);
        if s.last() == c {
            init.push(Seq::<char>::empty())
        } else {
            init.update(init.len() - 1, init.last().push(s.last()))
        }
    }
}

pub proof fn lemma_split_on_nonempty(s: Seq<char>, c: char)
    ensures
        split_on(s, c).len() >= 1,
    decreases s.len(),
{
    if s.len() > 0 {
        lemma_split_on_nonempty(s.drop_last(), c);
    }
}

/// No part of a split text holds the separator.
pub proof fn lemma_split_on_no_separator(s: Seq<char>, c: char)
    ensures
        forall|i: int| 0 <= i < split_on(s, c).len() ==> !(#[trigger] split_on(s, c)[i]).contains(c),
    decreases s.len(),
{
    if s.len() > 0 {
        lemma_split_on_no_separator(s.drop_last(), c);
        lemma_split_on_nonempty(s.drop_last(), c);
        let init = split_on(s.drop_last(), c);
        if s.last() != c {
            let grown = init.last().push(s.last());
            assert forall|i: int| 0 <= i < split_on(s, c).len() implies !(#[trigger] split_on(s, c)[i]).contains(c) by {
                if i == init.len() - 1 {
                    if grown.contains(c) {
                        let k = choose|k: int| 0 <= k < grown.len() && grown[k] == c;
                        assert(init.last()[k] == c);
                        assert(init[init.len() - 1].contains(c));
                    }
                }
            }
        } else {
            assert forall|i: int| 0 <= i < split_on(s, c).len() implies !(#[trigger] split_on(s, c)[i]).contains(c) by {
                if i < init.len() {
                    assert(split_on(s, c)[i] == init[i]);
                }
            }
        }
    }
}

/// Text ending in parts without the separator: the last part grows.
pub proof fn lemma_split_extend(s: Seq<char>, x: Seq<char>, c: char)
    requires
        !x.contains(c),
    ensures
        split_on(s + x, c) == split_on(s, c).update(
            split_on(s, c).len() - 1,
            split_on(s, c).last() + x,
        ),
        split_on(s, c).len() >= 1,
    decreases x.len(),
{
    lemma_split_on_nonempty(s, c);
    if x.len() == 0 {
        assert(s + x =~= s);
        assert(split_on(s, c).last() + x =~= split_on(s, c).last());
        assert(split_on(s, c).update(split_on(s, c).len() - 1, split_on(s, c).last()) =~= split_on(s, c));
    } else {
        let y = x.drop_last();
        assert(!y.contains(c)) by {
            if y.contains(c) {
                let k = choose|k: int| 0 <= k < y.len() && y[k] == c;
                assert(x[k] == c);
            }
        }
        lemma_split_extend(s, y, c);
        assert((s + x).drop_last() =~= s + y);
        assert((s + x).last() == x.last());
        assert(x.last() != c) by {
            assert(x[x.len() - 1] == x.last());
        }
        lemma_split_on_nonempty(s + y, c);
        let init = split_on(s + y, c);
        assert(init.last() == split_on(s, c).last() + y);
        assert(init.last().push(x.last()) =~= split_on(s, c).last() + x);
        assert(split_on(s + x, c) =~= split_on(s, c).update(
            split_on(s, c).len() - 1,
            split_on(s, c).last() + x,
        ));
    }
}

/// Splitting parts joined with `c` gives them back, when none holds `c`.
pub proof fn lemma_split_joined(p: Seq<Seq<char>>, c: char)
    requires
        p.len() > 0,
        forall|i: int| 0 <= i < p.len() ==> !(#[trigger] p[i]).contains(c),
    ensures
        split_on(joined(p, seq![c]), c) == p,
    decreases p.len(),
{
    if p.len() == 1 {
        assert(!p[0].contains(c));
        lemma_split_extend(Seq::empty(), p[0], c);
        assert(Seq::<char>::empty() + p[0] =~= p[0]);
        assert(split_on(Seq::<char>::empty(), c) =~= seq![Seq::<char>::empty()]);
        assert(Seq::<char>::empty() + p[0] =~= p[0]);
        assert(split_on(p[0], c) =~= p);
    } else {
        let a = joined(p.drop_last(), seq![c]);
        assert forall|i: int| 0 <= i < p.drop_last().len() implies !(#[trigger] p.drop_last()[i]).contains(c) by {
            assert(p.drop_last()[i] == p[i]);
        }
        lemma_split_joined(p.drop_last(), c);
        let b = a.push(c);
        assert(b.drop_last() =~= a);
        assert(b.last() == c);
        assert(split_on(b, c) == split_on(a, c).push(Seq::<char>::empty()));
        assert(!p[p.len() - 1].contains(c));
        lemma_split_extend(b, p.last(), c);
        assert(joined(p, seq![c]) =~= b + p.last());
        assert(Seq::<char>::empty() + p.last() =~= p.last());
        assert(split_on(b + p.last(), c) =~= p);
    }
}

/// The first character of joined components is that of the first component.
pub proof fn lemma_joined_first(p: Seq<Seq<char>>, sep: Seq<char>)
    requires
        p.len() > 0,
        p[0].len() > 0,
    ensures
        joined(p, sep).len() > 0,
        joined(p, sep)[0] == p[0][0],
    decreases p.len(),
{
    if p.len() > 1 {
        assert(p.drop_last()[0] == p[0]);
        lemma_joined_first(p.drop_last(), sep);
    }
}

/// A token path whose segments hold no `.`, written out, parses back to
/// itself.
pub proof fn lemma_path_round_trip(p: Seq<Seq<char>>)
    requires
        valid_path(p),
        forall|i: int| 0 <= i < p.len() ==> !(#[trigger] p[i]).contains('.'),
    ensures
        text_path_outcome(joined(p, "."@)) == Ok::<Seq<Seq<char>>, InvalidTokenPath>(p),
{
    reveal_strlit(".");
    assert("."@ =~= seq!['.']);
    lemma_split_joined(p, '.');
    assert(p[0].len() > 0);
    lemma_joined_first(p, "."@);
    assert(first_empty(p) is None);
}

/// A usable token path: at least one segment, no segment empty.
pub open spec fn valid_path(p: Seq<Seq<char>>) -> bool {
    p.len() > 0 && forall|i: int| 0 <= i < p.len() ==> #[trigger] p[i].len() > 0
}

/// The position of the first empty segment, if any.
pub open spec fn first_empty(p: Seq<Seq<char>>) -> Option<int> {
    if exists|i: int| 0 <= i < p.len() && #[trigger] p[i].len() == 0 {
        Some(choose|i: int| 0 <= i < p.len() && #[trigger] p[i].len() == 0 && forall|j: int|
            0 <= j < i ==> #[trigger] p[j].len() > 0)
    } else {
        None
    }
}

/// Dot-separated path identifying a design token.
#[derive(Debug, PartialEq, Eq, Hash, PartialOrd, Ord)]
pub struct TokenPath {
    segments: Vec<String>,
}

impl View for TokenPath {
    type V = Seq<Seq<char>>;

    closed spec fn view(&self) -> Seq<Seq<char>> {
        texts(self.segments@)
    }
}

/// Error returned when a token path has no usable segments.
#[derive(Clone, Copy, Debug, PartialEq, Eq)]
pub enum InvalidTokenPath {
    /// The path contained no segments.
    Empty,
    /// A dot or supplied empty string created an empty segment.
    EmptySegment {
        /// Zero-based position of the empty segment.
        index: usize,
    },
}

impl InvalidTokenPath {
    pub open spec fn message_text(&self) -> Seq<char> {
        match self {
            InvalidTokenPath::Empty => "token path is empty"@,
            InvalidTokenPath::EmptySegment { index } => "token path segment "@ + decimal(
                *index as nat,
            ) + " is empty"@,
        }
    }

    /// Renders the error message.
    pub fn to_string(&self) -> (r: String)
        ensures
            r@ == self.message_text(),
    {
        match self {
            InvalidTokenPath::Empty => owned("token path is empty"),
            InvalidTokenPath::EmptySegment { index } => {
                let mut r = owned("token path segment ");
                push_decimal(&mut r, *index);
                r.append(" is empty");
                r
            },
        }
    }
}

/// The outcome of building a path from segments.
pub open spec fn path_outcome(p: Seq<Seq<char>>) -> Result<Seq<Seq<char>>, InvalidTokenPath> {
    if p.len() == 0 {
        Err(InvalidTokenPath::Empty)
    } else if let Some(i) = first_empty(p) {
        Err(InvalidTokenPath::EmptySegment { index: i as usize })
    } else {
        Ok(p)
    }
}

/// The outcome of parsing a dotted path.
pub open spec fn text_path_outcome(s: Seq<char>) -> Result<Seq<Seq<char>>, InvalidTokenPath> {
    if s.len() == 0 {
        Err(InvalidTokenPath::Empty)
    } else {
        path_outcome(split_on(s, '.'))
    }
}

pub open spec fn outcome_matches(
    r: Result<TokenPath, InvalidTokenPath>,
    o: Result<Seq<Seq<char>>, InvalidTokenPath>,
) -> bool {
    match (r, o) {
        (Ok(p), Ok(q)) => p@ == q,
        (Err(e), Err(f)) => e == f,
        _ => false,
    }
}

impl TokenPath {
    #[verifier::type_invariant]
    closed spec fn inv(self) -> bool {
        valid_path(texts(self.segments@))
    }

    /// Every token path is valid.
    pub fn check_valid(&self)
        ensures
            valid_path(self@),
    {
        proof {
            use_type_invariant(self);
        }
    }

    /// Builds a path from individual segments.
    pub fn new(segments: Vec<String>) -> (r: Result<Self, InvalidTokenPath>)
        ensures
            outcome_matches(r, path_outcome(texts(segments@))),
    {
        let ghost p = texts(segments@);
        if segments.len() == 0 {
            return Err(InvalidTokenPath::Empty);
        }
        let mut i: usize = 0;
        while i < segments.len()
            invariant
                p == texts(segments@),
                i <= segments@.len(),
                forall|j: int| 0 <= j < i ==> #[trigger] p[j].len() > 0,
            decreases segments@.len() - i,
        {
            if segments[i].unicode_len() == 0 {
                proof {
                    assert(p[i as int].len() == 0);
                    let k = first_empty(p).unwrap();
                    assert(p[k].len() == 0);
                    if k < i {
                    } else if k > i {
                    }
                    assert(k == i);
                }
                return Err(InvalidTokenPath::EmptySegment { index: i });
            }
            i = i + 1;
        }
        assert(first_empty(p) is None);
        Ok(TokenPath { segments })
    }

    /// Parses a dot-separated path such as `color.brand.primary`.
    pub fn from_text(value: &str) -> (r: Result<Self, InvalidTokenPath>)
        ensures
            outcome_matches(r, text_path_outcome(value@)),
    {
        let chars = chars_of(value);
        if chars.len() == 0 {
            return Err(InvalidTokenPath::Empty);
        }
        let mut parts: Vec<String> = Vec::new();
        let mut current = String::new();
        let mut i: usize = 0;
        assert(chars@.take(0) =~= Seq::<char>::empty());
        while i < chars.len()
            invariant
                chars@ == value@,
                i <= chars@.len(),
                texts(parts@).push(current@) == split_on(chars@.take(i as int), '.'),
            decreases chars@.len() - i,
        {
            let c = chars[i];
            let ghost before = chars@.take(i as int);
            assert(chars@.take(i + 1).drop_last() =~= before);
            proof {
                lemma_split_on_nonempty(before, '.');
            }
            if c == '.' {
                parts.push(current);
                current = String::new();
                assert(texts(parts@).push(current@) =~= split_on(before, '.').push(
                    Seq::<char>::empty(),
                ));
            } else {
                let ghost old_parts = parts@;
                push_char(&mut current, c);
                assert(texts(parts@).push(current@) =~= split_on(before, '.').update(
                    split_on(before, '.').len() - 1,
                    split_on(before, '.').last().push(c),
                ));
            }
            i = i + 1;
        }
        let ghost before_push = texts(parts@).push(current@);
        parts.push(current);
        assert(chars@.take(chars@.len() as int) =~= chars@);
        assert(texts(parts@) =~= before_push);
        TokenPath::new(parts)
    }

    /// Iterates over path segments from group to token name.
    pub fn segments(&self) -> (r: Vec<&str>)
        ensures
            r@.len() == self@.len(),
            forall|i: int| 0 <= i < r@.len() ==> r@[i]@ == self@[i],
    {
        let mut r: Vec<&str> = Vec::new();
        let mut i: usize = 0;
        while i < self.segments.len()
            invariant
                i <= self.segments@.len(),
                r@.len() == i,
                forall|j: int| 0 <= j < i ==> r@[j]@ == self@[j],
            decreases self.segments@.len() - i,
        {
            r.push(self.segments[i].as_str());
            i = i + 1;
        }
        r
    }

    /// Returns the final token name.
    pub fn name(&self) -> (r: &str)
        ensures
            r@ == self@.last(),
    {
        proof {
            use_type_invariant(self);
        }
        self.segments[self.segments.len() - 1].as_str()
    }

    /// Renders the path with dots between segments.
    pub fn to_string(&self) -> (r: String)
        ensures
            r@ == joined(self@, "."@),
    {
        crate::diagnostic::join_texts(&self.segments, ".")
    }

    /// Whether `self` sorts before `other`, segment by segment.
    pub fn less(&self, other: &TokenPath) -> (r: bool)
        ensures
            r == segs_less(self@, other@),
    {
        segments_less(&self.segments, &other.segments)
    }

    /// Whether two paths have the same segments.
    pub fn same(&self, other: &TokenPath) -> (r: bool)
        ensures
            r == (self@ == other@),
    {
        segments_eq(&self.segments, &other.segments)
    }

    /// Copies the path.
    pub fn duplicate(&self) -> (r: TokenPath)
        ensures
            r@ == self@,
    {
        proof {
            use_type_invariant(self);
        }
        TokenPath { segments: copy_texts(&self.segments) }
    }
}

impl Clone for TokenPath {
    fn clone(&self) -> (r: Self)
        ensures
            r@ == self@,
    {
        self.duplicate()
    }
}

impl core::str::FromStr for TokenPath {
    type Err = InvalidTokenPath;

    fn from_str(value: &str) -> (r: Result<Self, Self::Err>)
        ensures
            outcome_matches(r, text_path_outcome(value@)),
    {
        TokenPath::from_text(value)
    }
}

} // verus!
