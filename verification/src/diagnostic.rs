//! Diagnostics with stable codes, and ordered collections of them.
use crate::text::texts;
use vstd::prelude::*;

verus! {

/// Texts joined with a separator.
pub open spec fn joined(parts: Seq<Seq<char>>, sep: Seq<char>) -> Seq<char>
    decreases parts.len(),
{
    if parts.len() == 0 {
        Seq::empty()
    } else if parts.len() == 1 {
        parts[0]
    } else {
        joined(parts.drop_last(), sep) + sep + parts.last()
    }
}

/// Appends `parts[i]` to a text holding `joined(parts[..i], sep)`.
pub proof fn lemma_joined_step(parts: Seq<Seq<char>>, sep: Seq<char>, i: int)
    requires
        0 <= i < parts.len(),
    ensures
        joined(parts.take(i + 1), sep) == if i == 0 {
            parts[0]
        } else {
            joined(parts.take(i), sep) + sep + parts[i]
        },
{
    assert(parts.take(i + 1).drop_last() =~= parts.take(i));
    if i == 0 {
        assert(parts.take(1).len() == 1);
    }
}

/// Joins strings with a separator.
pub fn join_texts(parts: &Vec<String>, sep: &str) -> (r: String)
    ensures
        r@ == joined(texts(parts@), sep@),
{
    let mut r = String::new();
    let mut i: usize = 0;
    assert(texts(parts@).take(0) =~= Seq::<Seq<char>>::empty());
    while i < parts.len()
        invariant
            i <= parts@.len(),
            r@ == joined(texts(parts@).take(i as int), sep@),
        decreases parts@.len() - i,
    {
        proof {
            lemma_joined_step(texts(parts@), sep@, i as int);
        }
        if i > 0 {
            r.append(sep);
        }
        r.append(parts[i].as_str());
        i = i + 1;
    }
    assert(texts(parts@).take(parts@.len() as int) =~= texts(parts@));
    r
}

/// A user-facing error with a stable diagnostic code.
pub trait Diagnostic {
    /// The stable diagnostic code.
    spec fn code_text(&self) -> Seq<char>;

    /// The rendered explanation.
    spec fn message_text(&self) -> Seq<char>;

    /// Returns the stable diagnostic code for this error.
    fn code(&self) -> (r: String)
        ensures
            r@ == self.code_text(),
    ;

    /// Renders the explanation.
    fn to_string(&self) -> (r: String)
        ensures
            r@ == self.message_text(),
    ;
}

/// One rendered diagnostic line: `error[CODE]: MESSAGE`.
pub open spec fn diagnostic_line(code: Seq<char>, message: Seq<char>) -> Seq<char> {
    "error["@ + code + "]: "@ + message
}

/// User-facing diagnostics collected in deterministic order.
#[derive(Clone, Debug, PartialEq, Eq)]
pub struct Errors<E> {
    errors: Vec<E>,
}

impl<E: Diagnostic> Errors<E> {
    /// The diagnostics in presentation order.
    pub closed spec fn items(&self) -> Seq<E> {
        self.errors@
    }

    /// The rendered lines of the collection.
    pub open spec fn lines(&self) -> Seq<Seq<char>> {
        self.items().map_values(|e: E| diagnostic_line(e.code_text(), e.message_text()))
    }

    /// Creates a collection containing one diagnostic.
    pub fn one(error: E) -> (r: Self)
        ensures
            r.items() == seq![error],
    {
        let mut errors = Vec::new();
        errors.push(error);
        assert(errors@ =~= seq![error]);
        Errors { errors }
    }

    /// Creates a collection from diagnostics already in presentation order.
    pub fn new(errors: Vec<E>) -> (r: Self)
        ensures
            r.items() == errors@,
    {
        Errors { errors }
    }

    /// Returns the collected diagnostics.
    pub fn errors(&self) -> (r: &[E])
        ensures
            r@ == self.items(),
    {
        self.errors.as_slice()
    }

    /// Consumes the collection and returns its diagnostics.
    pub fn into_errors(self) -> (r: Vec<E>)
        ensures
            r@ == self.items(),
    {
        self.errors
    }

    /// Returns the number of collected diagnostics.
    pub fn len(&self) -> (r: usize)
        ensures
            r == self.items().len(),
    {
        self.errors.len()
    }

    /// Returns whether no diagnostics were collected.
    pub fn is_empty(&self) -> (r: bool)
        ensures
            r == (self.items().len() == 0),
    {
        self.errors.len() == 0
    }

    /// Renders every diagnostic as `error[CODE]: MESSAGE`, one per line.
    pub fn to_string(&self) -> (r: String)
        ensures
            r@ == joined(self.lines(), "\n"@),
    {
        let mut r = String::new();
        let mut i: usize = 0;
        assert(self.lines().take(0) =~= Seq::<Seq<char>>::empty());
        while i < self.errors.len()
            invariant
                i <= self.errors@.len(),
                r@ == joined(self.lines().take(i as int), "\n"@),
            decreases self.errors@.len() - i,
        {
            proof {
                lemma_joined_step(self.lines(), "\n"@, i as int);
            }
            if i > 0 {
                r.append("\n");
            }
            let e = &self.errors[i];
            r.append("error[");
            let code = e.code();
            r.append(code.as_str());
            r.append("]: ");
            let message = e.to_string();
            r.append(message.as_str());
            proof {
                let line = diagnostic_line(e.code_text(), e.message_text());
                assert(self.lines()[i as int] == line);
            }
            i = i + 1;
        }
        assert(self.lines().take(self.errors@.len() as int) =~= self.lines());
        r
    }
}

} // verus!
