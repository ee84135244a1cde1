//! Component styles from KDL 2 documents.
//!
//! A theme document has one `theme NAME { ... }` node whose children are
//! `tokens PATH`, `import PATH` and `style NAME target=TARGET [extends=PARENT]
//! { ... }` nodes. A fragment has only such children, at the top level, and
//! takes its theme from the document that imports it. Every schema problem is
//! reported, in source order.
use crate::diagnostic::{Diagnostic, Errors};
use crate::primitives::{canonical_bits, finite_bits, Number};
use crate::source::{SourceId, Span};
use crate::style_model::{
    name_outcome, InvalidName, Name, PropertyAssignment, ResourceRef, StyleDefinition, StyleDocument, StyleState,
    StyleValue,
};
use crate::text::{decimal, has_padding, owned, push_decimal, text_eq, text_has_padding};
use crate::token_path::{text_path_outcome, TokenPath};
use crate::binary64::{binary64_bits, binary64_of};
use vstd::prelude::*;

verus! {

/// A KDL value as the style reader sees it. A number, integer or not, is
/// held by the bit pattern of its nearest binary64 value.
#[derive(Debug, PartialEq, Eq)]
pub enum KdlScalar {
    String(String),
    Integer(u64),
    Float(u64),
    Bool(bool),
    Null,
}

/// One argument (no name) or property (a name) of a node.
#[derive(Debug, PartialEq, Eq)]
pub struct KdlEntryData {
    pub name: Option<String>,
    pub value: KdlScalar,
    pub span: Span,
    pub annotation: Option<Span>,
}

/// One KDL node: its name, entries and children, with source spans.
#[derive(Debug, PartialEq, Eq)]
pub struct KdlNodeData {
    pub name: String,
    pub name_span: Span,
    pub span: Span,
    pub annotation: Option<Span>,
    pub entries: Vec<KdlEntryData>,
    pub children: Option<Vec<KdlNodeData>>,
}

/// A problem: the declaration it concerns, what is wrong, and where.
pub struct Problem {
    pub context: Seq<char>,
    pub message: Seq<char>,
    pub span: Option<Span>,
}

/// One decoded value that violates the KDL format contract.
#[derive(Clone, Debug, PartialEq, Eq)]
pub struct StructureError {
    context: String,
    message: String,
    span: Option<Span>,
}

/// ` at bytes START..END`, or nothing.
pub open spec fn span_suffix(span: Option<Span>) -> Seq<char> {
    match span {
        Some(s) => " at bytes "@ + decimal(s.lo() as nat) + ".."@ + decimal(s.hi() as nat),
        None => Seq::empty(),
    }
}

/// Renders the location suffix of a structure error.
pub fn format_span(span: Option<Span>) -> (r: String)
    ensures
        r@ == span_suffix(span),
{
    match span {
        Some(s) => {
            let mut r = owned(" at bytes ");
            push_decimal(&mut r, s.start());
            r.append("..");
            push_decimal(&mut r, s.end());
            r
        },
        None => String::new(),
    }
}

impl StructureError {
    pub closed spec fn problem(&self) -> Problem {
        Problem { context: self.context@, message: self.message@, span: self.span }
    }

    /// An error without a location.
    pub fn new(context: String, message: String) -> (r: StructureError)
        ensures
            r.problem() == (Problem { context: context@, message: message@, span: None }),
    {
        StructureError { context, message, span: None }
    }

    /// An error at `span`.
    pub fn at(context: String, message: String, span: Span) -> (r: StructureError)
        ensures
            r.problem() == (Problem { context: context@, message: message@, span: Some(span) }),
    {
        StructureError { context, message, span: Some(span) }
    }

    /// Returns the declaration context.
    pub fn context(&self) -> (r: &str)
        ensures
            r@ == self.problem().context,
    {
        self.context.as_str()
    }

    /// Returns the error message.
    pub fn message(&self) -> (r: &str)
        ensures
            r@ == self.problem().message,
    {
        self.message.as_str()
    }

    /// Returns the invalid declaration span when available.
    pub fn span(&self) -> (r: Option<Span>)
        ensures
            r == self.problem().span,
    {
        self.span
    }

    /// `CONTEXT: MESSAGE[ at bytes START..END]`
    pub open spec fn text(&self) -> Seq<char> {
        self.problem().context + ": "@ + self.problem().message + span_suffix(self.problem().span)
    }

    /// Renders the error.
    pub fn to_string(&self) -> (r: String)
        ensures
            r@ == self.text(),
    {
        let mut r = self.context.clone();
        r.append(": ");
        r.append(self.message.as_str());
        let suffix = format_span(self.span);
        r.append(suffix.as_str());
        r
    }
}

/// One diagnostic of the KDL parser: a byte range and an optional message.
#[derive(Clone, Debug, PartialEq, Eq)]
pub struct SyntaxDiagnostic {
    pub start: usize,
    pub end: usize,
    pub message: Option<String>,
}

/// One filename-aware KDL 2 syntax failure.
#[derive(Clone, Debug, PartialEq, Eq)]
pub struct SyntaxError {
    file_name: String,
    diagnostics: Vec<SyntaxDiagnostic>,
}

/// `FILE: MESSAGE at bytes START..END`
pub open spec fn syntax_line(file: Seq<char>, d: SyntaxDiagnostic) -> Seq<char> {
    file + ": "@ + match d.message {
        Some(m) => m@,
        None => "invalid KDL 2 syntax"@,
    } + " at bytes "@ + decimal(d.start as nat) + ".."@ + decimal(d.end as nat)
}

impl SyntaxError {
    pub closed spec fn file_of(&self) -> Seq<char> {
        self.file_name@
    }

    pub closed spec fn diagnostics_of(&self) -> Seq<SyntaxDiagnostic> {
        self.diagnostics@
    }

    /// The rendered failure: one line per parser diagnostic.
    pub open spec fn text(&self) -> Seq<char> {
        if self.diagnostics_of().len() == 0 {
            self.file_of() + ": invalid KDL 2 syntax"@
        } else {
            crate::diagnostic::joined(
                self.diagnostics_of().map_values(|d: SyntaxDiagnostic| syntax_line(self.file_of(), d)),
                "\n"@,
            )
        }
    }

    /// A syntax failure of the named source.
    pub fn new(file_name: String, diagnostics: Vec<SyntaxDiagnostic>) -> (r: SyntaxError)
        ensures
            r.file_of() == file_name@ && r.diagnostics_of() == diagnostics@,
    {
        SyntaxError { file_name, diagnostics }
    }

    /// Returns the source name supplied to the parser.
    pub fn file_name(&self) -> (r: &str)
        ensures
            r@ == self.file_of(),
    {
        self.file_name.as_str()
    }

    /// Returns the parser's diagnostics.
    pub fn diagnostics(&self) -> (r: &[SyntaxDiagnostic])
        ensures
            r@ == self.diagnostics_of(),
    {
        self.diagnostics.as_slice()
    }

    /// Renders the failure.
    pub fn to_string(&self) -> (r: String)
        ensures
            r@ == self.text(),
    {
        if self.diagnostics.len() == 0 {
            let mut r = self.file_name.clone();
            r.append(": invalid KDL 2 syntax");
            return r;
        }
        let ghost parts = self.diagnostics@.map_values(|d: SyntaxDiagnostic| syntax_line(self.file_name@, d));
        let mut r = String::new();
        let mut i: usize = 0;
        assert(parts.take(0) =~= Seq::<Seq<char>>::empty());
        while i < self.diagnostics.len()
            invariant
                parts == self.diagnostics@.map_values(|d: SyntaxDiagnostic| syntax_line(self.file_name@, d)),
                i <= self.diagnostics@.len(),
                r@ == crate::diagnostic::joined(parts.take(i as int), "\n"@),
            decreases self.diagnostics@.len() - i,
        {
            proof {
                crate::diagnostic::lemma_joined_step(parts, "\n"@, i as int);
            }
            if i > 0 {
                r.append("\n");
            }
            let d = &self.diagnostics[i];
            let ghost before = r@;
            r.append(self.file_name.as_str());
            r.append(": ");
            match &d.message {
                Some(m) => r.append(m.as_str()),
                None => r.append("invalid KDL 2 syntax"),
            }
            r.append(" at bytes ");
            push_decimal(&mut r, d.start);
            r.append("..");
            push_decimal(&mut r, d.end);
            proof {
                assert(r@ =~= before + parts[i as int]);
            }
            i = i + 1;
        }
        assert(parts.take(self.diagnostics@.len() as int) =~= parts);
        r
    }
}

/// KDL syntax or structure-conversion failure.
#[derive(Clone, Debug, PartialEq, Eq)]
pub enum ParseError {
    /// KDL syntax error reported by the KDL parser.
    Syntax(SyntaxError),
    /// One parsed KDL declaration that violates the format contract.
    Structure(StructureError),
}

/// All errors found while parsing one KDL document.
pub type ParseErrors = Errors<ParseError>;

impl Diagnostic for ParseError {
    open spec fn code_text(&self) -> Seq<char> {
        match self {
            ParseError::Syntax(_) => "TMS1001"@,
            ParseError::Structure(_) => "TMS1002"@,
        }
    }

    open spec fn message_text(&self) -> Seq<char> {
        match self {
            ParseError::Syntax(e) => e.text(),
            ParseError::Structure(e) => e.text(),
        }
    }

    fn code(&self) -> (r: String) {
        match self {
            ParseError::Syntax(_) => owned("TMS1001"),
            ParseError::Structure(_) => owned("TMS1002"),
        }
    }

    fn to_string(&self) -> (r: String) {
        match self {
            ParseError::Syntax(e) => e.to_string(),
            ParseError::Structure(e) => e.to_string(),
        }
    }
}

/// The kind of value a schema element requires.
#[derive(Clone, Copy, Debug, PartialEq, Eq)]
pub enum Expected {
    String,
    Boolean,
    Number,
}

/// A value of the required kind.
#[derive(Debug, PartialEq, Eq)]
pub enum DecodedValue {
    Text(String),
    Flag(bool),
    Bits(u64),
}

/// The value `v` gives when `e` is required, if it is of that kind.
pub open spec fn decodes(v: KdlScalar, e: Expected) -> Option<DecodedValue> {
    match (v, e) {
        (KdlScalar::String(s), Expected::String) => Some(DecodedValue::Text(s)),
        (KdlScalar::Bool(b), Expected::Boolean) => Some(DecodedValue::Flag(b)),
        (KdlScalar::Integer(bits), Expected::Number) => Some(DecodedValue::Bits(bits)),
        (KdlScalar::Float(bits), Expected::Number) => Some(DecodedValue::Bits(bits)),
        _ => None,
    }
}

pub open spec fn expected_name(e: Expected) -> Seq<char> {
    match e {
        Expected::String => "string"@,
        Expected::Boolean => "boolean"@,
        Expected::Number => "number"@,
    }
}

pub open spec fn scalar_kind_name(v: KdlScalar) -> Seq<char> {
    match v {
        KdlScalar::String(_) => "string"@,
        KdlScalar::Integer(_) => "integer"@,
        KdlScalar::Float(_) => "floating-point number"@,
        KdlScalar::Bool(_) => "boolean"@,
        KdlScalar::Null => "null"@,
    }
}

fn decode_scalar(v: &KdlScalar, e: Expected) -> (r: Option<DecodedValue>)
    ensures
        r == decodes(*v, e),
{
    match (v, e) {
        (KdlScalar::String(s), Expected::String) => Some(DecodedValue::Text(s.clone())),
        (KdlScalar::Bool(b), Expected::Boolean) => Some(DecodedValue::Flag(*b)),
        (KdlScalar::Integer(bits), Expected::Number) => Some(DecodedValue::Bits(*bits)),
        (KdlScalar::Float(bits), Expected::Number) => Some(DecodedValue::Bits(*bits)),
        _ => None,
    }
}

fn expected_text(e: Expected) -> (r: &'static str)
    ensures
        r@ == expected_name(e),
{
    match e {
        Expected::String => "string",
        Expected::Boolean => "boolean",
        Expected::Number => "number",
    }
}

fn scalar_kind(v: &KdlScalar) -> (r: &'static str)
    ensures
        r@ == scalar_kind_name(*v),
{
    match v {
        KdlScalar::String(_) => "string",
        KdlScalar::Integer(_) => "integer",
        KdlScalar::Float(_) => "floating-point number",
        KdlScalar::Bool(_) => "boolean",
        KdlScalar::Null => "null",
    }
}

/// One value decoded from a KDL entry, together with its exact source span.
pub struct Decoded<T> {
    value: T,
    span: Span,
}

impl<T> Decoded<T> {
    pub closed spec fn value_of(&self) -> T {
        self.value
    }

    pub closed spec fn span_of(&self) -> Span {
        self.span
    }

    /// Returns the decoded value.
    pub fn value(&self) -> (r: &T)
        ensures
            *r == self.value_of(),
    {
        &self.value
    }

    /// Returns the value and its span.
    pub fn into_parts(self) -> (r: (T, Span))
        ensures
            r.0 == self.value_of() && r.1 == self.span_of(),
    {
        (self.value, self.span)
    }
}

/// The problems recorded by a list of errors.
pub open spec fn problems_of(errors: Seq<StructureError>) -> Seq<Problem> {
    errors.map_values(|e: StructureError| e.problem())
}

/// Shared source identity and error accumulator for one KDL document.
pub struct Decoder {
    source: SourceId,
    errors: Vec<StructureError>,
}

/// `BEFORE'NAME'`
pub open spec fn quote_after(before: Seq<char>, name: Seq<char>) -> Seq<char> {
    before + "'"@ + name + "'"@
}

fn quote_text(before: &str, name: &str) -> (r: String)
    ensures
        r@ == quote_after(before@, name@),
{
    let mut r = owned(before);
    r.append("'");
    r.append(name);
    r.append("'");
    r
}

impl Decoder {
    pub closed spec fn source_of(&self) -> SourceId {
        self.source
    }

    pub closed spec fn recorded(&self) -> Seq<StructureError> {
        self.errors@
    }

    pub open spec fn problems(&self) -> Seq<Problem> {
        problems_of(self.recorded())
    }

    /// A decoder for the document `source` that has found nothing yet.
    pub fn new(source: SourceId) -> (r: Decoder)
        ensures
            r.source_of() == source && r.problems().len() == 0,
    {
        Decoder { source, errors: Vec::new() }
    }

    /// Returns the document's source identity.
    pub fn source(&self) -> (r: SourceId)
        ensures
            r == self.source_of(),
    {
        self.source
    }

    /// The span of `length` bytes from `offset`, if it fits in memory.
    pub fn span(&self, offset: usize, length: usize) -> (r: Option<Span>)
        ensures
            offset + length <= usize::MAX <==> r is Some,
            r matches Some(s) ==> s.src() == self.source_of() && s.lo() == offset && s.hi() == offset + length,
    {
        match offset.checked_add(length) {
            Some(end) => Some(Span::ordered(self.source, offset, end)),
            None => None,
        }
    }

    /// Records a problem at `span`.
    pub fn error_at(&mut self, context: String, message: String, span: Span)
        ensures
            final(self).source_of() == old(self).source_of(),
            grew(old(self).problems(), final(self).problems()),
            final(self).problems() == old(self).problems().push(
                Problem { context: context@, message: message@, span: Some(span) },
            ),
    {
        self.errors.push(StructureError::at(context, message, span));
        assert(problems_of(self.errors@) =~= problems_of(old(self).errors@).push(
            Problem { context: context@, message: message@, span: Some(span) },
        ));
        assert(self.problems().subrange(0, old(self).problems().len() as int) =~= old(self).problems());
    }

    /// Records a node that the schema does not allow here.
    pub fn unexpected_node(&mut self, context: &str, node: &KdlNodeData)
        ensures
            final(self).source_of() == old(self).source_of(),
            grew(old(self).problems(), final(self).problems()),
            final(self).problems() == old(self).problems().push(unexpected_node_problem(context@, *node)),
    {
        self.error_at(owned(context), quote_text("unexpected node ", node.name.as_str()), node.name_span);
    }

    /// Returns the errors ordered by where they start; errors without a span
    /// come last, and errors with the same start keep the order in which
    /// they were found.
    pub fn into_errors(self) -> (r: Vec<StructureError>)
        ensures
            r@.to_multiset() == self.recorded().to_multiset(),
            forall|key: usize| #[trigger] with_key(r@, key) == with_key(self.recorded(), key),
            forall|i: int, j: int|
                0 <= i < j < r@.len() ==> start_key(#[trigger] r@[i].problem()) <= start_key(
                    #[trigger] r@[j].problem(),
                ),
    {
        let mut sorted: Vec<StructureError> = Vec::new();
        let mut rest = self.errors;
        let ghost initial = rest@;
        broadcast use vstd::multiset::group_multiset_axioms;
        broadcast use vstd::seq_lib::group_to_multiset_ensures;
        assert(initial.subrange(0, 0) =~= sorted@);
        let count = rest.len();
        let mut taken: usize = 0;
        while rest.len() > 0
            invariant
                taken + rest@.len() == count,
                initial.len() == count,
                rest@ == initial.subrange(taken as int, count as int),
                sorted@.to_multiset() == initial.subrange(0, taken as int).to_multiset(),
                forall|key: usize| #[trigger] with_key(sorted@, key) == with_key(initial.subrange(0, taken as int), key),
                forall|i: int, j: int|
                    0 <= i < j < sorted@.len() ==> start_key(#[trigger] sorted@[i].problem()) <= start_key(
                        #[trigger] sorted@[j].problem(),
                    ),
            decreases rest@.len(),
        {
            let next = rest.remove(0);
            let key = error_start(&next);
            let mut k: usize = sorted.len();
            while k > 0 && key < error_start(&sorted[k - 1])
                invariant
                    k <= sorted@.len(),
                    key == start_key(next.problem()),
                    forall|j: int| k <= j < sorted@.len() ==> key < start_key(#[trigger] sorted@[j].problem()),
                decreases k,
            {
                k = k - 1;
            }
            let ghost before = sorted@;
            proof {
                if k > 0 {
                    assert(start_key(before[k - 1].problem()) <= key);
                }
            }
            sorted.insert(k, next);
            proof {
                assert(sorted@ =~= before.insert(k as int, next));
                lemma_with_key_insert(before, k as int, next);
                assert forall|key: usize| #[trigger] with_key(sorted@, key) == with_key(
                    initial.subrange(0, taken + 1),
                    key,
                ) by {
                    let pred = |e: StructureError| start_key(e.problem()) == key;
                    assert(initial.subrange(0, taken + 1) =~= initial.subrange(0, taken as int).push(next));
                    initial.subrange(0, taken as int).lemma_filter_push(next, pred);
                    assert(with_key(before, key) == with_key(initial.subrange(0, taken as int), key));
                }
                assert forall|i: int, j: int|
                    0 <= i < j < sorted@.len() implies start_key(#[trigger] sorted@[i].problem()) <= start_key(
                        #[trigger] sorted@[j].problem(),
                    ) by {
                    if j == k && i < k {
                        assert(sorted@[i] == before[i]);
                        if i < k - 1 {
                            assert(start_key(before[i].problem()) <= start_key(before[k - 1].problem()));
                        }
                    } else if i == k && j > k {
                        assert(sorted@[j] == before[j - 1]);
                    } else if i < k && j > k {
                        assert(sorted@[i] == before[i]);
                        assert(sorted@[j] == before[j - 1]);
                    } else if i > k {
                        assert(sorted@[i] == before[i - 1]);
                        assert(sorted@[j] == before[j - 1]);
                    }
                }
                assert(initial.subrange(0, taken + 1) =~= initial.subrange(0, taken as int).push(next));
                broadcast use vstd::seq_lib::group_to_multiset_ensures;
                before.insert_ensures(k as int, next);
                assert(sorted@.remove(k as int) =~= before);
                assert(sorted@.to_multiset() =~= before.to_multiset().insert(next));
            }
            taken = taken + 1;
        }
        assert(initial.subrange(0, count as int) =~= initial);
        sorted
    }
}

/// The errors of `errors` that start at `key`, in order.
pub open spec fn with_key(errors: Seq<StructureError>, key: usize) -> Seq<StructureError> {
    errors.filter(|e: StructureError| start_key(e.problem()) == key)
}

/// Inserting an error before every error that starts later appends it to
/// the errors with its start, and leaves the others as they were.
proof fn lemma_with_key_insert(before: Seq<StructureError>, k: int, next: StructureError)
    requires
        0 <= k <= before.len(),
        forall|j: int| k <= j < before.len() ==> start_key(next.problem()) < start_key(#[trigger] before[j].problem()),
    ensures
        forall|key: usize|
            #[trigger] with_key(before.insert(k, next), key) == if key == start_key(next.problem()) {
                with_key(before, key).push(next)
            } else {
                with_key(before, key)
            },
{
    broadcast use vstd::seq_lib::group_seq_properties;

    let head = before.take(k);
    let tail = before.skip(k);
    assert(before.insert(k, next) =~= head + seq![next] + tail);
    assert(before =~= head + tail);
    assert forall|key: usize|
        #[trigger] with_key(before.insert(k, next), key) == if key == start_key(next.problem()) {
            with_key(before, key).push(next)
        } else {
            with_key(before, key)
        } by {
        let pred = |e: StructureError| start_key(e.problem()) == key;
        Seq::filter_distributes_over_add(head + seq![next], tail, pred);
        Seq::filter_distributes_over_add(head, seq![next], pred);
        Seq::filter_distributes_over_add(head, tail, pred);
        assert(seq![next] =~= Seq::<StructureError>::empty().push(next));
        Seq::<StructureError>::empty().lemma_filter_push(next, pred);
        assert(Seq::<StructureError>::empty().filter(pred) =~= Seq::<StructureError>::empty()) by {
            reveal(Seq::filter);
        }
        if key == start_key(next.problem()) {
            assert(tail.all(|x: StructureError| !pred(x))) by {
                assert forall|j: int| 0 <= j < tail.len() implies !pred(#[trigger] tail[j]) by {
                    assert(tail[j] == before[k + j]);
                }
            }
            tail.lemma_all_neg_filter_empty(pred);
            assert(tail.filter(pred) =~= Seq::<StructureError>::empty());
            assert(with_key(before.insert(k, next), key) =~= head.filter(pred).push(next));
            assert(with_key(before, key) =~= head.filter(pred));
        } else {
            assert(with_key(before.insert(k, next), key) =~= head.filter(pred) + tail.filter(pred));
        }
    }
}

/// Where an error starts, for ordering; errors without a span sort last.
pub open spec fn start_key(p: Problem) -> usize {
    match p.span {
        Some(s) => s.lo(),
        None => usize::MAX,
    }
}

fn error_start(e: &StructureError) -> (r: usize)
    ensures
        r == start_key(e.problem()),
{
    match e.span() {
        Some(s) => s.start(),
        None => usize::MAX,
    }
}

pub open spec fn unexpected_node_problem(context: Seq<char>, node: KdlNodeData) -> Problem {
    Problem {
        context,
        message: quote_after("unexpected node "@, node.name@),
        span: Some(node.name_span),
    }
}

/// The position among `entries` of the argument at `position`, counting
/// only entries without a name.
pub open spec fn arg_index(entries: Seq<KdlEntryData>, position: int) -> Option<int>
    decreases entries.len(),
{
    if entries.len() == 0 {
        None
    } else if entries[0].name is None && position == 0 {
        Some(0)
    } else {
        let rest = arg_index(
            entries.drop_first(),
            if entries[0].name is None {
                position - 1
            } else {
                position
            },
        );
        match rest {
            Some(i) => Some(i + 1),
            None => None,
        }
    }
}

/// The positions of the entries that are properties named `name`.
pub open spec fn named_indices(entries: Seq<KdlEntryData>, name: Seq<char>) -> Seq<int>
    decreases entries.len(),
{
    if entries.len() == 0 {
        Seq::empty()
    } else {
        let earlier = named_indices(entries.drop_last(), name);
        if entries.last().name matches Some(n) && n@ == name {
            earlier.push(entries.len() - 1)
        } else {
            earlier
        }
    }
}

pub open spec fn entry_annotation_problems(entries: Seq<KdlEntryData>, context: Seq<char>) -> Seq<Problem>
    decreases entries.len(),
{
    if entries.len() == 0 {
        Seq::empty()
    } else {
        let earlier = entry_annotation_problems(entries.drop_last(), context);
        match entries.last().annotation {
            Some(s) => earlier.push(
                Problem { context, message: "value type annotations are not supported"@, span: Some(s) },
            ),
            None => earlier,
        }
    }
}

/// Problems with the type annotations of a node and its entries.
pub open spec fn annotation_problems(node: KdlNodeData, context: Seq<char>) -> Seq<Problem> {
    let head = match node.annotation {
        Some(s) => seq![
            Problem { context, message: "node type annotations are not supported"@, span: Some(s) },
        ],
        None => Seq::empty(),
    };
    head + entry_annotation_problems(node.entries@, context)
}

/// A value of the wrong kind.
pub open spec fn entry_problem(
    context: Seq<char>,
    label: Seq<char>,
    entry: KdlEntryData,
    expected: Expected,
) -> Problem {
    Problem {
        context,
        message: label + " must be a "@ + expected_name(expected) + ", found "@ + scalar_kind_name(
            entry.value,
        ),
        span: Some(entry.span),
    }
}

/// Problems with the entries that no schema element claimed.
pub open spec fn unclaimed_entry_problems(
    entries: Seq<KdlEntryData>,
    used: Seq<bool>,
    context: Seq<char>,
) -> Seq<Problem>
    decreases entries.len(),
{
    if entries.len() == 0 {
        Seq::empty()
    } else {
        let earlier = unclaimed_entry_problems(entries.drop_last(), used, context);
        let i = entries.len() - 1;
        if used[i] {
            earlier
        } else {
            earlier.push(
                Problem {
                    context,
                    message: match entries.last().name {
                        Some(n) => quote_after("unexpected property "@, n@),
                        None => "unexpected argument"@,
                    },
                    span: Some(entries.last().span),
                },
            )
        }
    }
}

/// Problems with the children that no schema element claimed.
pub open spec fn unclaimed_children_problems(node: KdlNodeData, context: Seq<char>) -> Seq<Problem> {
    match node.children {
        Some(children) => children@.map_values(|c: KdlNodeData| unexpected_node_problem(context, c)),
        None => Seq::empty(),
    }
}

/// Problems with the children when they were not claimed.
pub open spec fn unclaimed_rest(node: KdlNodeData, context: Seq<char>, claimed: bool) -> Seq<Problem> {
    if claimed {
        Seq::empty()
    } else {
        unclaimed_children_problems(node, context)
    }
}

/// A decoded value and its span, as a pair.
pub open spec fn decoded_parts<T>(d: Option<Decoded<T>>) -> Option<(T, Span)> {
    match d {
        Some(x) => Some((x.value_of(), x.span_of())),
        None => None,
    }
}

/// Stateful view of one node that reports every unclaimed schema element.
pub struct NodeDecoder<'n> {
    node: &'n KdlNodeData,
    context: String,
    used: Vec<bool>,
    children_claimed: bool,
}

impl<'n> NodeDecoder<'n> {
    pub closed spec fn node_of(&self) -> KdlNodeData {
        *self.node
    }

    pub closed spec fn context_of(&self) -> Seq<char> {
        self.context@
    }

    pub closed spec fn used_of(&self) -> Seq<bool> {
        self.used@
    }

    pub closed spec fn claimed_of(&self) -> bool {
        self.children_claimed
    }

    pub open spec fn wf(&self) -> bool {
        self.used_of().len() == self.node_of().entries@.len()
    }

    /// Starts decoding `node`, reporting type annotations, which the schema
    /// does not support.
    pub fn new(decoder: &mut Decoder, node: &'n KdlNodeData, context: String) -> (r: NodeDecoder<'n>)
        ensures
            r.wf(),
            r.node_of() == *node,
            r.context_of() == context@,
            !r.claimed_of(),
            forall|i: int| 0 <= i < r.used_of().len() ==> !(#[trigger] r.used_of()[i]),
            final(decoder).source_of() == old(decoder).source_of(),
            final(decoder).problems() == old(decoder).problems() + annotation_problems(*node, context@),
    {
        let mut used: Vec<bool> = Vec::new();
        let mut i: usize = 0;
        while i < node.entries.len()
            invariant
                i <= node.entries@.len(),
                used@.len() == i,
                forall|k: int| 0 <= k < i ==> !(#[trigger] used@[k]),
            decreases node.entries@.len() - i,
        {
            used.push(false);
            i = i + 1;
        }
        let ghost start = decoder.problems();
        match node.annotation {
            Some(s) => {
                decoder.error_at(context.clone(), owned("node type annotations are not supported"), s);
            },
            None => {},
        }
        let ghost head = decoder.problems();
        let mut k: usize = 0;
        assert(decoder.problems() =~= head + entry_annotation_problems(node.entries@.take(0), context@));
        while k < node.entries.len()
            invariant
                k <= node.entries@.len(),
                decoder.source_of() == old(decoder).source_of(),
                decoder.problems() == head + entry_annotation_problems(node.entries@.take(k as int), context@),
            decreases node.entries@.len() - k,
        {
            assert(node.entries@.take(k + 1).drop_last() =~= node.entries@.take(k as int));
            match node.entries[k].annotation {
                Some(s) => {
                    decoder.error_at(context.clone(), owned("value type annotations are not supported"), s);
                },
                None => {},
            }
            k = k + 1;
        }
        assert(node.entries@.take(node.entries@.len() as int) =~= node.entries@);
        assert(decoder.problems() =~= old(decoder).problems() + annotation_problems(*node, context@));
        NodeDecoder { node, context, used, children_claimed: false }
    }

    /// Returns the node's span.
    pub fn span(&self) -> (r: Span)
        ensures
            r == self.node_of().span,
    {
        self.node.span
    }

    /// Returns the position of the argument at `position`.
    pub fn argument_entry_index(&self, position: usize) -> (r: Option<usize>)
        ensures
            match (r, arg_index(self.node_of().entries@, position as int)) {
                (Some(a), Some(b)) => a == b,
                (None, None) => true,
                _ => false,
            },
    {
        let entries = &self.node.entries;
        let mut remaining = position;
        let mut i: usize = 0;
        assert(entries@.skip(0) =~= entries@);
        while i < entries.len()
            invariant
                i <= entries@.len(),
                *entries == self.node.entries,
                match arg_index(entries@, position as int) {
                    Some(k) => match arg_index(entries@.skip(i as int), remaining as int) {
                        Some(j) => k == j + i,
                        None => false,
                    },
                    None => arg_index(entries@.skip(i as int), remaining as int) is None,
                },
            decreases entries@.len() - i,
        {
            assert(entries@.skip(i as int).drop_first() =~= entries@.skip(i + 1));
            assert(entries@.skip(i as int)[0] == entries@[i as int]);
            if entries[i].name.is_none() {
                if remaining == 0 {
                    assert(arg_index(entries@.skip(i as int), remaining as int) == Some(0int));
                    assert(arg_index(entries@, position as int) == Some(i as int));
                    return Some(i);
                }
                remaining = remaining - 1;
            }
            i = i + 1;
        }
        None
    }

    fn decode_entry(
        &mut self,
        decoder: &mut Decoder,
        index: usize,
        label: String,
        expected: Expected,
    ) -> (r: Option<Decoded<DecodedValue>>)
        requires
            old(self).wf(),
            index < old(self).node_of().entries@.len(),
        ensures
            *final(self) == *old(self),
            final(decoder).source_of() == old(decoder).source_of(),
            grew(old(decoder).problems(), final(decoder).problems()),
            decoded_parts(r) == match decodes(old(self).node_of().entries@[index as int].value, expected) {
                Some(v) => Some((v, old(self).node_of().entries@[index as int].span)),
                None => None,
            },
            final(decoder).problems() == match decodes(old(self).node_of().entries@[index as int].value, expected) {
                Some(_) => old(decoder).problems(),
                None => old(decoder).problems().push(
                    entry_problem(old(self).context_of(), label@, old(self).node_of().entries@[index as int], expected),
                ),
            },
    {
        let entry = &self.node.entries[index];
        match decode_scalar(&entry.value, expected) {
            Some(value) => {
                proof {
                    assert(decoder.problems().subrange(0, decoder.problems().len() as int) =~= decoder.problems());
                }
                Some(Decoded { value, span: entry.span })
            },
            None => {
                let mut message = label;
                message.append(" must be a ");
                message.append(expected_text(expected));
                message.append(", found ");
                message.append(scalar_kind(&entry.value));
                decoder.error_at(self.context.clone(), message, entry.span);
                None
            },
        }
    }

    /// Decodes the argument at `position`, which the schema requires.
    pub fn required_argument(
        &mut self,
        decoder: &mut Decoder,
        position: usize,
        label: &str,
        expected: Expected,
    ) -> (r: Option<Decoded<DecodedValue>>)
        requires
            old(self).wf(),
        ensures
            final(self).wf(),
            final(self).node_of() == old(self).node_of(),
            final(self).context_of() == old(self).context_of(),
            final(self).claimed_of() == old(self).claimed_of(),
            final(decoder).source_of() == old(decoder).source_of(),
            grew(old(decoder).problems(), final(decoder).problems()),
            match arg_index(old(self).node_of().entries@, position as int) {
                None => {
                    &&& r is None
                    &&& final(self).used_of() == old(self).used_of()
                    &&& final(decoder).problems() == old(decoder).problems().push(
                        Problem {
                            context: old(self).context_of(),
                            message: label@ + " argument is required"@,
                            span: Some(old(self).node_of().name_span),
                        },
                    )
                },
                Some(i) => {
                    let entry = old(self).node_of().entries@[i];
                    &&& final(self).used_of() == old(self).used_of().update(i, true)
                    &&& decoded_parts(r) == match decodes(entry.value, expected) {
                        Some(v) => Some((v, entry.span)),
                        None => None,
                    }
                    &&& final(decoder).problems() == match decodes(entry.value, expected) {
                        Some(_) => old(decoder).problems(),
                        None => old(decoder).problems().push(
                            entry_problem(old(self).context_of(), label@ + " argument"@, entry, expected),
                        ),
                    }
                },
            },
    {
        let ghost before = decoder.problems();
        let r = match self.argument_entry_index(position) {
            None => {
                let mut message = owned(label);
                message.append(" argument is required");
                decoder.error_at(self.context.clone(), message, self.node.name_span);
                None
            },
            Some(index) => {
                proof {
                    lemma_arg_index_bound(self.node.entries@, position as int);
                }
                self.used.set(index, true);
                let mut entry_label = owned(label);
                entry_label.append(" argument");
                self.decode_entry(decoder, index, entry_label, expected)
            },
        };
        r
    }

    /// Claims and returns child nodes in source order.
    pub fn children(&mut self) -> (r: &'n [KdlNodeData])
        ensures
            final(self).claimed_of(),
            final(self).node_of() == old(self).node_of(),
            final(self).context_of() == old(self).context_of(),
            final(self).used_of() == old(self).used_of(),
            r@ == match old(self).node_of().children {
                Some(c) => c@,
                None => Seq::empty(),
            },
    {
        self.children_claimed = true;
        match &self.node.children {
            Some(c) => c.as_slice(),
            None => &[],
        }
    }

    /// Reports arguments, properties, or children that were not claimed by
    /// the schema.
    pub fn finish(self, decoder: &mut Decoder)
        requires
            self.wf(),
        ensures
            final(decoder).source_of() == old(decoder).source_of(),
            final(decoder).problems() == old(decoder).problems() + unclaimed_entry_problems(
                self.node_of().entries@,
                self.used_of(),
                self.context_of(),
            ) + unclaimed_rest(self.node_of(), self.context_of(), self.claimed_of()),
    {
        let entries = &self.node.entries;
        let ghost start = decoder.problems();
        let mut i: usize = 0;
        assert(decoder.problems() =~= start + unclaimed_entry_problems(entries@.take(0), self.used@, self.context@));
        while i < entries.len()
            invariant
                i <= entries@.len(),
                *entries == self.node.entries,
                self.used@.len() == entries@.len(),
                decoder.source_of() == old(decoder).source_of(),
                decoder.problems() == start + unclaimed_entry_problems(entries@.take(i as int), self.used@, self.context@),
            decreases entries@.len() - i,
        {
            assert(entries@.take(i + 1).drop_last() =~= entries@.take(i as int));
            if !self.used[i] {
                let message = match &entries[i].name {
                    Some(n) => quote_text("unexpected property ", n.as_str()),
                    None => owned("unexpected argument"),
                };
                decoder.error_at(self.context.clone(), message, entries[i].span);
            }
            i = i + 1;
        }
        assert(entries@.take(entries@.len() as int) =~= entries@);
        let ghost middle = decoder.problems();
        if !self.children_claimed {
            match &self.node.children {
                Some(children) => {
                    let mut k: usize = 0;
                    assert(decoder.problems() =~= middle + children@.take(0).map_values(|c: KdlNodeData| unexpected_node_problem(self.context@, c)));
                    while k < children.len()
                        invariant
                            k <= children@.len(),
                            decoder.source_of() == old(decoder).source_of(),
                            decoder.problems() == middle + children@.take(k as int).map_values(
                                |c: KdlNodeData| unexpected_node_problem(self.context@, c),
                            ),
                        decreases children@.len() - k,
                    {
                        decoder.unexpected_node(self.context.as_str(), &children[k]);
                        assert(children@.take(k + 1).map_values(|c: KdlNodeData| unexpected_node_problem(self.context@, c))
                            =~= children@.take(k as int).map_values(|c: KdlNodeData| unexpected_node_problem(self.context@, c)).push(
                            unexpected_node_problem(self.context@, children@[k as int])));
                        k = k + 1;
                    }
                    assert(children@.take(children@.len() as int) =~= children@);
                },
                None => {
                    assert(decoder.problems() =~= middle + Seq::<Problem>::empty());
                },
            }
        } else {
            assert(decoder.problems() =~= middle + Seq::<Problem>::empty());
        }
    }
}

proof fn lemma_arg_index_bound(entries: Seq<KdlEntryData>, position: int)
    ensures
        arg_index(entries, position) matches Some(i) ==> 0 <= i < entries.len(),
    decreases entries.len(),
{
    if entries.len() > 0 {
        lemma_arg_index_bound(
            entries.drop_first(),
            if entries[0].name is None {
                position - 1
            } else {
                position
            },
        );
    }
}

/// Problems for the repeated occurrences of a property.
pub open spec fn duplicate_problems(
    context: Seq<char>,
    name: Seq<char>,
    entries: Seq<KdlEntryData>,
    repeats: Seq<int>,
) -> Seq<Problem> {
    repeats.map_values(
        |k: int|
            Problem {
                context,
                message: quote_after("duplicate property "@, name),
                span: Some(entries[k].span),
            },
    )
}

proof fn lemma_named_indices_bound(entries: Seq<KdlEntryData>, name: Seq<char>)
    ensures
        forall|k: int| 0 <= k < named_indices(entries, name).len() ==> 0 <= #[trigger] named_indices(entries, name)[k]
            < entries.len(),
    decreases entries.len(),
{
    if entries.len() > 0 {
        lemma_named_indices_bound(entries.drop_last(), name);
        let e = named_indices(entries.drop_last(), name);
        assert forall|k: int| 0 <= k < named_indices(entries, name).len() implies 0
            <= #[trigger] named_indices(entries, name)[k] < entries.len() by {
            if k < e.len() {
                assert(named_indices(entries, name)[k] == e[k]);
            }
        }
    }
}

impl<'n> NodeDecoder<'n> {
    /// Decodes the property `name`: the first occurrence counts, later ones
    /// are reported.
    pub fn property(
        &mut self,
        decoder: &mut Decoder,
        name: &str,
        required: bool,
        expected: Expected,
    ) -> (r: Option<Decoded<DecodedValue>>)
        requires
            old(self).wf(),
        ensures
            final(self).wf(),
            final(self).node_of() == old(self).node_of(),
            final(self).context_of() == old(self).context_of(),
            final(self).claimed_of() == old(self).claimed_of(),
            final(decoder).source_of() == old(decoder).source_of(),
            grew(old(decoder).problems(), final(decoder).problems()),
            ({
                let entries = old(self).node_of().entries@;
                let found = named_indices(entries, name@);
                let context = old(self).context_of();
                if found.len() == 0 {
                    &&& r is None
                    &&& final(self).used_of() == old(self).used_of()
                    &&& final(decoder).problems() == if required {
                        old(decoder).problems().push(
                            Problem {
                                context,
                                message: quote_after("property "@, name@) + " is required"@,
                                span: Some(old(self).node_of().name_span),
                            },
                        )
                    } else {
                        old(decoder).problems()
                    }
                } else {
                    let first = entries[found[0]];
                    &&& forall|k: int|
                        0 <= k < entries.len() ==> #[trigger] final(self).used_of()[k] == (old(self).used_of()[k]
                            || found.contains(k))
                    &&& decoded_parts(r) == match decodes(first.value, expected) {
                        Some(v) => Some((v, first.span)),
                        None => None,
                    }
                    &&& final(decoder).problems() == old(decoder).problems() + duplicate_problems(
                        context,
                        name@,
                        entries,
                        found.drop_first(),
                    ) + match decodes(first.value, expected) {
                        Some(_) => Seq::<Problem>::empty(),
                        None => seq![entry_problem(context, quote_after("property "@, name@), first, expected)],
                    }
                }
            }),
    {
        let entries = &self.node.entries;
        let ghost all = entries@;
        let mut indices: Vec<usize> = Vec::new();
        let mut i: usize = 0;
        assert(named_indices(all.take(0), name@) =~= Seq::<int>::empty());
        while i < entries.len()
            invariant
                *entries == self.node.entries,
                self.node == old(self).node,
                self.context == old(self).context,
                self.children_claimed == old(self).children_claimed,
                all == entries@,
                i <= all.len(),
                indices@.len() == named_indices(all.take(i as int), name@).len(),
                forall|k: int| 0 <= k < indices@.len() ==> #[trigger] indices@[k] as int == named_indices(all.take(i as int), name@)[k],
            decreases all.len() - i,
        {
            assert(all.take(i + 1).drop_last() =~= all.take(i as int));
            assert(all.take(i + 1).last() == all[i as int]);
            let matches = match &entries[i].name {
                Some(n) => text_eq(n.as_str(), name),
                None => false,
            };
            if matches {
                indices.push(i);
            }
            i = i + 1;
        }
        assert(all.take(all.len() as int) =~= all);
        let ghost found = named_indices(all, name@);
        proof {
            lemma_named_indices_bound(all, name@);
        }
        if indices.len() == 0 {
            if required {
                let mut message = quote_text("property ", name);
                message.append(" is required");
                decoder.error_at(self.context.clone(), message, self.node.name_span);
            } else {
                proof {
                    lemma_grew_refl(decoder.problems());
                }
            }
            return None;
        }
        let ghost before_used = self.used@;
        let mut k: usize = 0;
        while k < indices.len()
            invariant
                *entries == self.node.entries,
                self.node == old(self).node,
                self.context == old(self).context,
                self.children_claimed == old(self).children_claimed,
                all == entries@,
                found == named_indices(all, name@),
                indices@.len() == found.len(),
                forall|m: int| 0 <= m < indices@.len() ==> #[trigger] indices@[m] as int == found[m],
                forall|m: int| 0 <= m < found.len() ==> 0 <= #[trigger] found[m] < all.len(),
                self.used@.len() == all.len(),
                before_used.len() == all.len(),
                k <= indices@.len(),
                forall|x: int|
                    0 <= x < all.len() ==> #[trigger] self.used@[x] == (before_used[x] || found.take(k as int).contains(x)),
            decreases indices@.len() - k,
        {
            let index = indices[k];
            assert(found[k as int] == index as int);
            self.used.set(index, true);
            proof {
                assert forall|x: int| 0 <= x < all.len() implies #[trigger] self.used@[x] == (before_used[x]
                    || found.take(k + 1).contains(x)) by {
                    if found.take(k + 1).contains(x) && !found.take(k as int).contains(x) {
                        let w = choose|w: int| 0 <= w < k + 1 && #[trigger] found.take(k + 1)[w] == x;
                        assert(w == k);
                    }
                    if found.take(k as int).contains(x) {
                        let w = choose|w: int| 0 <= w < k && #[trigger] found.take(k as int)[w] == x;
                        assert(found.take(k + 1)[w] == x);
                    }
                    if x == index as int {
                        assert(found.take(k + 1)[k as int] == x);
                    }
                }
            }
            k = k + 1;
        }
        assert(found.take(found.len() as int) =~= found);
        let ghost start = decoder.problems();
        let mut d: usize = 1;
        assert(duplicate_problems(self.context@, name@, all, found.drop_first().take(0)) =~= Seq::<Problem>::empty());
        assert(decoder.problems() =~= start + duplicate_problems(self.context@, name@, all, found.drop_first().take(0)));
        while d < indices.len()
            invariant
                *entries == self.node.entries,
                self.node == old(self).node,
                self.context == old(self).context,
                self.children_claimed == old(self).children_claimed,
                all == entries@,
                found == named_indices(all, name@),
                indices@.len() == found.len(),
                found.len() > 0,
                forall|m: int| 0 <= m < indices@.len() ==> #[trigger] indices@[m] as int == found[m],
                forall|m: int| 0 <= m < found.len() ==> 0 <= #[trigger] found[m] < all.len(),
                1 <= d <= indices@.len(),
                decoder.source_of() == old(decoder).source_of(),
                decoder.problems() == start + duplicate_problems(self.context@, name@, all, found.drop_first().take(d - 1)),
            decreases indices@.len() - d,
        {
            let index = indices[d];
            decoder.error_at(self.context.clone(), quote_text("duplicate property ", name), entries[index].span);
            proof {
                assert(found.drop_first().take(d as int) =~= found.drop_first().take(d - 1).push(found[d as int]));
                assert(decoder.problems() =~= start + duplicate_problems(self.context@, name@, all, found.drop_first().take(d as int)));
            }
            d = d + 1;
        }
        assert(found.drop_first().take(found.len() - 1) =~= found.drop_first());
        let ghost middle = decoder.problems();
        let label = quote_text("property ", name);
        let r = self.decode_entry(decoder, indices[0], label, expected);
        proof {
            assert(indices@[0] as int == found[0]);
            match decodes(all[found[0]].value, expected) {
                Some(_) => {
                    assert(decoder.problems() =~= middle + Seq::<Problem>::empty());
                },
                None => {},
            }
            assert(decoder.problems().subrange(0, old(decoder).problems().len() as int) =~= old(decoder).problems());
        }
        r
    }
}

proof fn lemma_grew_refl(a: Seq<Problem>)
    ensures
        grew(a, a),
{
    assert(a.subrange(0, a.len() as int) =~= a);
}

/// `after` extends `before`.
pub open spec fn grew(before: Seq<Problem>, after: Seq<Problem>) -> bool {
    after.len() >= before.len() && after.subrange(0, before.len() as int) == before
}

proof fn lemma_grew_trans(a: Seq<Problem>, b: Seq<Problem>, c: Seq<Problem>)
    requires
        grew(a, b),
        grew(b, c),
    ensures
        grew(a, c),
        c.len() == a.len() ==> b.len() == a.len(),
{
    assert(c.subrange(0, a.len() as int) =~= c.subrange(0, b.len() as int).subrange(0, a.len() as int));
}

proof fn lemma_grew_append(a: Seq<Problem>, extra: Seq<Problem>)
    ensures
        grew(a, a + extra),
        (a + extra).len() == a.len() ==> extra.len() == 0,
{
    assert((a + extra).subrange(0, a.len() as int) =~= a);
}

/// The text of the argument at `position`.
pub open spec fn arg_text(node: KdlNodeData, position: int) -> Option<Seq<char>> {
    match arg_index(node.entries@, position) {
        Some(i) => match node.entries@[i].value {
            KdlScalar::String(s) => Some(s@),
            _ => None,
        },
        None => None,
    }
}

/// The value of the argument at `position`.
pub open spec fn arg_scalar(node: KdlNodeData, position: int) -> Option<KdlScalar> {
    match arg_index(node.entries@, position) {
        Some(i) => Some(node.entries@[i].value),
        None => None,
    }
}

/// The text of the first property named `name`.
pub open spec fn prop_text(node: KdlNodeData, name: Seq<char>) -> Option<Seq<char>> {
    let found = named_indices(node.entries@, name);
    if found.len() == 0 {
        None
    } else {
        match node.entries@[found[0]].value {
            KdlScalar::String(s) => Some(s@),
            _ => None,
        }
    }
}

/// The children of a node.
pub open spec fn child_nodes(node: KdlNodeData) -> Seq<KdlNodeData> {
    match node.children {
        Some(c) => c@,
        None => Seq::empty(),
    }
}

/// The nodes named `name`, in order.
pub open spec fn nodes_named(nodes: Seq<KdlNodeData>, name: Seq<char>) -> Seq<KdlNodeData>
    decreases nodes.len(),
{
    if nodes.len() == 0 {
        Seq::empty()
    } else if nodes.last().name@ == name {
        nodes_named(nodes.drop_last(), name).push(nodes.last())
    } else {
        nodes_named(nodes.drop_last(), name)
    }
}

/// The nodes not named `name`, in order.
pub open spec fn nodes_not_named(nodes: Seq<KdlNodeData>, name: Seq<char>) -> Seq<KdlNodeData>
    decreases nodes.len(),
{
    if nodes.len() == 0 {
        Seq::empty()
    } else if nodes.last().name@ != name {
        nodes_not_named(nodes.drop_last(), name).push(nodes.last())
    } else {
        nodes_not_named(nodes.drop_last(), name)
    }
}

/// `v` is the value a property node of kind `kind` gives for the argument `arg`.
pub open spec fn value_from(kind: Seq<char>, v: StyleValue, arg: Option<KdlScalar>) -> bool {
    match (arg, v) {
        (Some(KdlScalar::Bool(b)), StyleValue::Boolean(c)) => kind == "boolean"@ && b == c,
        (Some(KdlScalar::Integer(bits)), StyleValue::Number(n)) => kind == "number"@ && n@
            == canonical_bits(bits),
        (Some(KdlScalar::Float(bits)), StyleValue::Number(n)) => kind == "number"@ && n@
            == canonical_bits(bits),
        (Some(KdlScalar::String(s)), StyleValue::String(t)) => kind == "string"@ && t@ == s@,
        (Some(KdlScalar::String(s)), StyleValue::Token(p)) => kind == "token"@ && text_path_outcome(
            s@,
        ) == Ok::<Seq<Seq<char>>, crate::token_path::InvalidTokenPath>(p@),
        (Some(KdlScalar::String(s)), StyleValue::Resource(r)) => kind == "resource"@ && r@ == s@,
        _ => false,
    }
}

/// The assignment a property node declares.
pub open spec fn assignment_from(a: PropertyAssignment, node: KdlNodeData) -> bool {
    &&& a.span_of() == Some(node.span)
    &&& arg_text(node, 0) == Some(a.name_of()@)
    &&& value_from(node.name@, a.value_of(), arg_scalar(node, 1))
}

pub open spec fn assignments_from(props: Seq<PropertyAssignment>, nodes: Seq<KdlNodeData>) -> bool {
    &&& props.len() == nodes.len()
    &&& forall|i: int| 0 <= i < props.len() ==> assignment_from(#[trigger] props[i], nodes[i])
}

/// The state a `state` node declares.
pub open spec fn state_from(s: StyleState, node: KdlNodeData) -> bool {
    &&& s.span_of() == Some(node.span)
    &&& arg_text(node, 0) == Some(s.name_of()@)
    &&& assignments_from(s.properties_of(), child_nodes(node))
}

pub open spec fn states_from(states: Seq<StyleState>, nodes: Seq<KdlNodeData>) -> bool {
    &&& states.len() == nodes.len()
    &&& forall|i: int| 0 <= i < states.len() ==> state_from(#[trigger] states[i], nodes[i])
}

/// The style a `style` node declares.
pub open spec fn style_from(d: StyleDefinition, node: KdlNodeData) -> bool {
    &&& d.span_of() == Some(node.span)
    &&& arg_text(node, 0) == Some(d.name_of()@)
    &&& prop_text(node, "target"@) == Some(d.target_of()@)
    &&& match prop_text(node, "extends"@) {
        Some(t) => d.extends_of() matches Some(e) && e@ == t,
        None => d.extends_of() is None,
    }
    &&& assignments_from(d.properties_of(), nodes_not_named(child_nodes(node), "state"@))
    &&& states_from(d.states_of(), nodes_named(child_nodes(node), "state"@))
}

pub open spec fn styles_from(styles: Seq<StyleDefinition>, nodes: Seq<KdlNodeData>) -> bool {
    &&& styles.len() == nodes.len()
    &&& forall|i: int| 0 <= i < styles.len() ==> style_from(#[trigger] styles[i], nodes[i])
}

/// The path each of `nodes` gives as its first argument.
pub open spec fn paths_from(paths: Seq<String>, nodes: Seq<KdlNodeData>) -> bool {
    &&& paths.len() == nodes.len()
    &&& forall|i: int| 0 <= i < paths.len() ==> arg_text(nodes[i], 0) == Some((#[trigger] paths[i])@)
}

/// The document declared by the top-level declarations `nodes`.
pub open spec fn document_from(
    doc: StyleDocument,
    source: SourceId,
    theme: Option<Seq<char>>,
    nodes: Seq<KdlNodeData>,
) -> bool {
    &&& doc.source_of() == source
    &&& match (doc.theme_of(), theme) {
        (Some(n), Some(t)) => n@ == t,
        (None, None) => true,
        _ => false,
    }
    &&& paths_from(doc.token_sources_of(), nodes_named(nodes, "tokens"@))
    &&& paths_from(doc.imports_of(), nodes_named(nodes, "import"@))
    &&& styles_from(doc.styles_of(), nodes_named(nodes, "style"@))
}

/// `CONTEXT property`, or `CONTEXT property 'NAME'` once the name is known.
pub open spec fn property_context_text(context: Seq<char>, name: Option<Seq<char>>) -> Seq<char> {
    match name {
        Some(n) => quote_after(context + " property "@, n),
        None => context + " property"@,
    }
}

fn text_of(d: Option<Decoded<DecodedValue>>) -> (r: Option<(String, Span)>)
    ensures
        match decoded_parts(d) {
            Some((DecodedValue::Text(s), span)) => r == Some((s, span)),
            _ => r is None,
        },
{
    match d {
        Some(d) => {
            let (v, span) = d.into_parts();
            match v {
                DecodedValue::Text(s) => Some((s, span)),
                _ => None,
            }
        },
        None => None,
    }
}

/// Converts decoded KDL nodes into style declarations, collecting problems.
pub struct Converter {
    decoder: Decoder,
}

impl Converter {
    pub closed spec fn problems(&self) -> Seq<Problem> {
        self.decoder.problems()
    }

    pub closed spec fn source_of(&self) -> SourceId {
        self.decoder.source_of()
    }

    pub closed spec fn recorded(&self) -> Seq<StructureError> {
        self.decoder.recorded()
    }

    /// A converter for the document `source`.
    pub fn new(source: SourceId) -> (r: Converter)
        ensures
            r.source_of() == source && r.problems().len() == 0,
    {
        Converter { decoder: Decoder::new(source) }
    }

    /// Returns the problems found, ordered by where they start, in the order
    /// found among those with the same start.
    pub fn into_errors(self) -> (r: Vec<StructureError>)
        ensures
            r@.to_multiset() == self.recorded().to_multiset(),
            forall|key: usize| #[trigger] with_key(r@, key) == with_key(self.recorded(), key),
            forall|i: int, j: int|
                0 <= i < j < r@.len() ==> start_key(#[trigger] r@[i].problem()) <= start_key(
                    #[trigger] r@[j].problem(),
                ),
    {
        self.decoder.into_errors()
    }

    /// Validates a declaration name.
    pub fn name(&mut self, context: &str, text: String, span: Span) -> (r: Option<Name>)
        ensures
            final(self).source_of() == old(self).source_of(),
            grew(old(self).problems(), final(self).problems()),
            match name_outcome(text@) {
                Ok(_) => r matches Some(n) && n@ == text@ && final(self).problems() == old(self).problems(),
                Err(e) => r is None && final(self).problems() == old(self).problems().push(
                    Problem { context: context@, message: e.message_text(), span: Some(span) },
                ),
            },
    {
        match Name::new(text) {
            Ok(name) => {
                proof {
                    assert(self.problems().subrange(0, self.problems().len() as int) =~= self.problems());
                }
                Some(name)
            },
            Err(e) => {
                self.decoder.error_at(owned(context), e.to_string(), span);
                None
            },
        }
    }

    /// Validates a source path: non-empty, without surrounding white space.
    pub fn source_path(&mut self, context: &str, text: String, span: Span) -> (r: Option<String>)
        ensures
            final(self).source_of() == old(self).source_of(),
            grew(old(self).problems(), final(self).problems()),
            if text@.len() == 0 || has_padding(text@) {
                r is None && final(self).problems() == old(self).problems().push(
                    Problem {
                        context: context@,
                        message: "source path must be non-empty and have no surrounding whitespace"@,
                        span: Some(span),
                    },
                )
            } else {
                r == Some(text) && final(self).problems() == old(self).problems()
            },
    {
        if text.unicode_len() == 0 || text_has_padding(text.as_str()) {
            self.decoder.error_at(
                owned(context),
                owned("source path must be non-empty and have no surrounding whitespace"),
                span,
            );
            None
        } else {
            proof {
                assert(self.problems().subrange(0, self.problems().len() as int) =~= self.problems());
            }
            Some(text)
        }
    }

    /// The context of a property declaration.
    pub fn property_context(context: &str, name: Option<&String>) -> (r: String)
        ensures
            r@ == property_context_text(
                context@,
                match name {
                    Some(n) => Some(n@),
                    None => None,
                },
            ),
    {
        match name {
            Some(n) => {
                let mut before = owned(context);
                before.append(" property ");
                quote_text(before.as_str(), n.as_str())
            },
            None => {
                let mut r = owned(context);
                r.append(" property");
                r
            },
        }
    }
}

/// Whether a node declares a property.
pub open spec fn is_property_kind(name: Seq<char>) -> bool {
    name == "boolean"@ || name == "number"@ || name == "string"@ || name == "token"@ || name
        == "resource"@
}

fn property_kind(name: &str) -> (r: bool)
    ensures
        r == is_property_kind(name@),
{
    text_eq(name, "boolean") || text_eq(name, "number") || text_eq(name, "string") || text_eq(
        name,
        "token",
    ) || text_eq(name, "resource")
}

fn concat(a: &str, b: &str) -> (r: String)
    ensures
        r@ == a@ + b@,
{
    let mut r = owned(a);
    r.append(b);
    r
}

/// The entry is a property named `name`.
pub open spec fn has_name(entry: KdlEntryData, name: Seq<char>) -> bool {
    entry.name matches Some(n) && n@ == name
}

/// The number of arguments (entries without a name) among `entries`.
pub open spec fn arg_count(entries: Seq<KdlEntryData>) -> nat
    decreases entries.len(),
{
    if entries.len() == 0 {
        0
    } else {
        arg_count(entries.drop_first()) + if entries[0].name is None {
            1nat
        } else {
            0nat
        }
    }
}

/// Neither the node nor any of its entries carries a type annotation.
pub open spec fn unannotated(node: KdlNodeData) -> bool {
    &&& node.annotation is None
    &&& forall|k: int| 0 <= k < node.entries@.len() ==> (#[trigger] node.entries@[k]).annotation is None
}

/// Every property among `entries` has one of the names `names`.
pub open spec fn named_among(entries: Seq<KdlEntryData>, names: Seq<Seq<char>>) -> bool {
    forall|k: int|
        0 <= k < entries.len() ==> match (#[trigger] entries[k]).name {
            Some(n) => names.contains(n@),
            None => true,
        }
}

/// A node header the schema accepts: no type annotations, exactly `count`
/// arguments, and properties only among `names`, each given at most once.
pub open spec fn plain_header(node: KdlNodeData, count: nat, names: Seq<Seq<char>>) -> bool {
    &&& unannotated(node)
    &&& arg_count(node.entries@) == count
    &&& named_among(node.entries@, names)
    &&& forall|k: int| 0 <= k < names.len() ==> (#[trigger] named_indices(node.entries@, names[k])).len() <= 1
}

/// A declaration name: given as a string, non-empty, without surrounding
/// white space.
pub open spec fn good_text(t: Option<Seq<char>>) -> bool {
    t matches Some(s) && name_outcome(s) is Ok
}

/// The value a property node of kind `kind` accepts.
pub open spec fn value_accepted(kind: Seq<char>, v: Option<KdlScalar>) -> bool {
    match v {
        Some(KdlScalar::Bool(_)) => kind == "boolean"@,
        Some(KdlScalar::Integer(bits)) => kind == "number"@ && finite_bits(bits),
        Some(KdlScalar::Float(bits)) => kind == "number"@ && finite_bits(bits),
        Some(KdlScalar::String(s)) => kind == "string"@ || (kind == "token"@ && text_path_outcome(s@) is Ok)
            || (kind == "resource"@ && name_outcome(s@) is Ok),
        _ => false,
    }
}

/// A property node the converter accepts: `KIND NAME VALUE`.
pub open spec fn accepted_property(node: KdlNodeData) -> bool {
    &&& is_property_kind(node.name@)
    &&& plain_header(node, 2, Seq::empty())
    &&& child_nodes(node).len() == 0
    &&& good_text(arg_text(node, 0))
    &&& value_accepted(node.name@, arg_scalar(node, 1))
}

/// A child of a state the converter accepts.
pub open spec fn accepted_state_child(node: KdlNodeData) -> bool {
    is_property_kind(node.name@) && accepted_property(node)
}

/// A `state NAME { ... }` node the converter accepts.
pub open spec fn accepted_state(node: KdlNodeData) -> bool {
    &&& plain_header(node, 1, Seq::empty())
    &&& good_text(arg_text(node, 0))
    &&& forall|k: int| 0 <= k < child_nodes(node).len() ==> accepted_state_child(#[trigger] child_nodes(node)[k])
}

/// A child of a style the converter accepts.
pub open spec fn accepted_style_child(node: KdlNodeData) -> bool {
    if node.name@ == "state"@ {
        accepted_state(node)
    } else {
        is_property_kind(node.name@) && accepted_property(node)
    }
}

/// A `style NAME target=TARGET [extends=PARENT] { ... }` node the converter
/// accepts.
pub open spec fn accepted_style(node: KdlNodeData) -> bool {
    &&& plain_header(node, 1, seq!["target"@, "extends"@])
    &&& good_text(arg_text(node, 0))
    &&& good_text(prop_text(node, "target"@))
    &&& named_indices(node.entries@, "extends"@).len() > 0 ==> good_text(prop_text(node, "extends"@))
    &&& forall|k: int| 0 <= k < child_nodes(node).len() ==> accepted_style_child(#[trigger] child_nodes(node)[k])
}

/// A `tokens PATH` or `import PATH` node the converter accepts.
pub open spec fn accepted_source_path(node: KdlNodeData) -> bool {
    &&& plain_header(node, 1, Seq::empty())
    &&& child_nodes(node).len() == 0
    &&& good_text(arg_text(node, 0))
}

/// A declaration of a theme or fragment the converter accepts.
pub open spec fn accepted_declaration(node: KdlNodeData) -> bool {
    if node.name@ == "tokens"@ || node.name@ == "import"@ {
        accepted_source_path(node)
    } else if node.name@ == "style"@ {
        accepted_style(node)
    } else {
        false
    }
}

/// Declarations the converter accepts.
pub open spec fn accepted_declarations(nodes: Seq<KdlNodeData>) -> bool {
    forall|k: int| 0 <= k < nodes.len() ==> accepted_declaration(#[trigger] nodes[k])
}

/// A `theme NAME { ... }` node the converter accepts.
pub open spec fn accepted_theme(node: KdlNodeData) -> bool {
    &&& plain_header(node, 1, Seq::empty())
    &&& good_text(arg_text(node, 0))
    &&& accepted_declarations(child_nodes(node))
}

/// The text and span of the string argument at `position`, if there is one.
pub open spec fn arg_string(node: KdlNodeData, position: int) -> Option<(Seq<char>, Span)> {
    match arg_index(node.entries@, position) {
        Some(i) => match node.entries@[i].value {
            KdlScalar::String(s) => Some((s@, node.entries@[i].span)),
            _ => None,
        },
        None => None,
    }
}

/// The text and span of the first property named `name`, if it is a string.
pub open spec fn prop_string(node: KdlNodeData, name: Seq<char>) -> Option<(Seq<char>, Span)> {
    let found = named_indices(node.entries@, name);
    if found.len() == 0 {
        None
    } else {
        match node.entries@[found[0]].value {
            KdlScalar::String(s) => Some((s@, node.entries@[found[0]].span)),
            _ => None,
        }
    }
}

/// The text of a located text.
pub open spec fn text_part(t: Option<(Seq<char>, Span)>) -> Option<Seq<char>> {
    match t {
        Some((s, _)) => Some(s),
        None => None,
    }
}

/// The problem with the argument at `position`, which the schema requires.
pub open spec fn argument_problems(
    context: Seq<char>,
    node: KdlNodeData,
    position: int,
    label: Seq<char>,
    expected: Expected,
) -> Seq<Problem> {
    match arg_index(node.entries@, position) {
        None => seq![
            Problem { context, message: label + " argument is required"@, span: Some(node.name_span) },
        ],
        Some(i) => match decodes(node.entries@[i].value, expected) {
            Some(_) => Seq::empty(),
            None => seq![entry_problem(context, label + " argument"@, node.entries@[i], expected)],
        },
    }
}

/// The problems with the property `name`: missing when required, repeated,
/// or of the wrong kind.
pub open spec fn property_problems(
    context: Seq<char>,
    node: KdlNodeData,
    name: Seq<char>,
    required: bool,
    expected: Expected,
) -> Seq<Problem> {
    let entries = node.entries@;
    let found = named_indices(entries, name);
    if found.len() == 0 {
        if required {
            seq![
                Problem {
                    context,
                    message: quote_after("property "@, name) + " is required"@,
                    span: Some(node.name_span),
                },
            ]
        } else {
            Seq::empty()
        }
    } else {
        duplicate_problems(context, name, entries, found.drop_first()) + match decodes(
            entries[found[0]].value,
            expected,
        ) {
            Some(_) => Seq::<Problem>::empty(),
            None => seq![entry_problem(context, quote_after("property "@, name), entries[found[0]], expected)],
        }
    }
}

/// The entries that a schema of `count` arguments and the properties
/// `names` claims.
pub open spec fn claims(entries: Seq<KdlEntryData>, count: nat, names: Seq<Seq<char>>) -> Seq<bool> {
    Seq::new(entries.len(), |k: int| entry_claimed(entries, count, names, k))
}

/// The problem with a declaration name, if it was given.
pub open spec fn name_problems(context: Seq<char>, name: Option<(Seq<char>, Span)>) -> Seq<Problem> {
    match name {
        Some((text, span)) => match name_outcome(text) {
            Ok(_) => Seq::empty(),
            Err(e) => seq![Problem { context, message: e.message_text(), span: Some(span) }],
        },
        None => Seq::empty(),
    }
}

/// The kind of value a property node of kind `kind` requires.
pub open spec fn kind_expected(kind: Seq<char>) -> Expected {
    if kind == "boolean"@ {
        Expected::Boolean
    } else if kind == "number"@ {
        Expected::Number
    } else {
        Expected::String
    }
}

/// The message of a resource reference refused for the reason `e`.
pub open spec fn resource_message(e: InvalidName) -> Seq<char> {
    match e {
        InvalidName::Empty => "resource reference is empty"@,
        InvalidName::SurroundingWhitespace => "resource reference cannot start or end with whitespace"@,
    }
}

/// The problem with the value of a property node, once it has the kind the
/// node requires.
pub open spec fn value_problems(context: Seq<char>, node: KdlNodeData) -> Seq<Problem> {
    let kind = node.name@;
    match arg_index(node.entries@, 1) {
        Some(i) => {
            let at = Some(node.entries@[i].span);
            match decodes(node.entries@[i].value, kind_expected(kind)) {
                Some(DecodedValue::Bits(bits)) => if finite_bits(bits) {
                    Seq::empty()
                } else {
                    seq![Problem { context, message: "number must be finite"@, span: at }]
                },
                Some(DecodedValue::Text(t)) => if kind == "string"@ {
                    Seq::empty()
                } else if kind == "token"@ {
                    match text_path_outcome(t@) {
                        Ok(_) => Seq::empty(),
                        Err(e) => seq![Problem { context, message: e.message_text(), span: at }],
                    }
                } else {
                    match name_outcome(t@) {
                        Ok(_) => Seq::empty(),
                        Err(e) => seq![Problem { context, message: resource_message(e), span: at }],
                    }
                },
                _ => Seq::empty(),
            }
        },
        None => Seq::empty(),
    }
}

/// The problems of a property node `KIND NAME VALUE`, in the order found.
pub open spec fn property_node_problems(context: Seq<char>, node: KdlNodeData) -> Seq<Problem> {
    let own = context + " property"@;
    let named = property_context_text(context, text_part(arg_string(node, 0)));
    annotation_problems(node, own) + argument_problems(own, node, 0, "name"@, Expected::String)
        + argument_problems(own, node, 1, "value"@, kind_expected(node.name@)) + unclaimed_entry_problems(
        node.entries@,
        claims(node.entries@, 2, Seq::empty()),
        own,
    ) + unclaimed_children_problems(node, own) + name_problems(named, arg_string(node, 0)) + value_problems(
        named,
        node,
    )
}

/// The problems of the children of a state.
pub open spec fn state_children_problems(context: Seq<char>, children: Seq<KdlNodeData>) -> Seq<Problem>
    decreases children.len(),
{
    if children.len() == 0 {
        Seq::empty()
    } else {
        let child = children.last();
        state_children_problems(context, children.drop_last()) + if is_property_kind(child.name@) {
            property_node_problems(context, child)
        } else {
            seq![unexpected_node_problem(context, child)]
        }
    }
}

/// The problems of a `state NAME { ... }` node of the style `style_context`.
pub open spec fn state_problems(style_context: Seq<char>, node: KdlNodeData) -> Seq<Problem> {
    let own = style_context + " state"@;
    let name = arg_string(node, 0);
    let named = match name {
        Some((n, _)) => quote_after(style_context + " state "@, n),
        None => own,
    };
    annotation_problems(node, own) + argument_problems(own, node, 0, "name"@, Expected::String)
        + unclaimed_entry_problems(node.entries@, claims(node.entries@, 1, Seq::empty()), own) + name_problems(
        named,
        name,
    ) + state_children_problems(named, child_nodes(node))
}

/// The problems of the children of a style.
pub open spec fn style_children_problems(context: Seq<char>, children: Seq<KdlNodeData>) -> Seq<Problem>
    decreases children.len(),
{
    if children.len() == 0 {
        Seq::empty()
    } else {
        let child = children.last();
        style_children_problems(context, children.drop_last()) + if child.name@ == "state"@ {
            state_problems(context, child)
        } else if is_property_kind(child.name@) {
            property_node_problems(context, child)
        } else {
            seq![unexpected_node_problem(context, child)]
        }
    }
}

/// The view of an optional text with its span.
pub open spec fn located_text(t: Option<(String, Span)>) -> Option<(Seq<char>, Span)> {
    match t {
        Some((s, span)) => Some((s@, span)),
        None => None,
    }
}

/// The problems of the header of a style, before its names are checked.
pub open spec fn style_header_problems(node: KdlNodeData) -> Seq<Problem> {
    annotation_problems(node, "style"@) + argument_problems("style"@, node, 0, "name"@, Expected::String)
        + property_problems("style"@, node, "target"@, true, Expected::String) + property_problems(
        "style"@,
        node,
        "extends"@,
        false,
        Expected::String,
    ) + unclaimed_entry_problems(node.entries@, claims(node.entries@, 1, seq!["target"@, "extends"@]), "style"@)
}

/// A style header with its name and `target` given as strings, `extends`
/// given as a string if at all, and nothing else.
pub open spec fn style_header_accepted(node: KdlNodeData) -> bool {
    &&& plain_header(node, 1, seq!["target"@, "extends"@])
    &&& arg_text(node, 0) is Some
    &&& prop_text(node, "target"@) is Some
    &&& named_indices(node.entries@, "extends"@).len() > 0 ==> prop_text(node, "extends"@) is Some
}

/// The problems of a `style NAME target=TARGET [extends=PARENT] { ... }` node.
pub open spec fn style_problems(node: KdlNodeData) -> Seq<Problem> {
    let name = arg_string(node, 0);
    let named = match name {
        Some((n, _)) => quote_after("style "@, n),
        None => "style"@,
    };
    style_header_problems(node) + name_problems(named, name) + name_problems(
        named + " target"@,
        prop_string(node, "target"@),
    ) + name_problems(named + " extends"@, prop_string(node, "extends"@)) + style_children_problems(
        named,
        child_nodes(node),
    )
}

/// The problem with a source path, if it was given.
pub open spec fn path_problems(context: Seq<char>, path: Option<(Seq<char>, Span)>) -> Seq<Problem> {
    match path {
        Some((text, span)) => if text.len() == 0 || has_padding(text) {
            seq![
                Problem {
                    context,
                    message: "source path must be non-empty and have no surrounding whitespace"@,
                    span: Some(span),
                },
            ]
        } else {
            Seq::empty()
        },
        None => Seq::empty(),
    }
}

/// The problems of a `tokens PATH` or `import PATH` node.
pub open spec fn source_path_problems(context: Seq<char>, node: KdlNodeData) -> Seq<Problem> {
    annotation_problems(node, context) + argument_problems(context, node, 0, "path"@, Expected::String)
        + unclaimed_entry_problems(node.entries@, claims(node.entries@, 1, Seq::empty()), context)
        + unclaimed_children_problems(node, context) + path_problems(context, arg_string(node, 0))
}

/// The problems of one declaration of a theme or fragment.
pub open spec fn declaration_problems(context: Seq<char>, node: KdlNodeData) -> Seq<Problem> {
    if node.name@ == "tokens"@ {
        source_path_problems("tokens"@, node)
    } else if node.name@ == "import"@ {
        source_path_problems("import"@, node)
    } else if node.name@ == "style"@ {
        style_problems(node)
    } else {
        seq![unexpected_node_problem(context, node)]
    }
}

/// The problems of the declarations of a theme or fragment.
pub open spec fn declarations_problems(context: Seq<char>, nodes: Seq<KdlNodeData>) -> Seq<Problem>
    decreases nodes.len(),
{
    if nodes.len() == 0 {
        Seq::empty()
    } else {
        declarations_problems(context, nodes.drop_last()) + declaration_problems(context, nodes.last())
    }
}

/// The problems of a `theme NAME { ... }` node.
pub open spec fn theme_problems(node: KdlNodeData) -> Seq<Problem> {
    annotation_problems(node, "theme"@) + argument_problems("theme"@, node, 0, "name"@, Expected::String)
        + unclaimed_entry_problems(node.entries@, claims(node.entries@, 1, Seq::empty()), "theme"@)
        + name_problems("theme"@, arg_string(node, 0)) + declarations_problems("theme"@, child_nodes(node))
}

proof fn lemma_arg_index_some(entries: Seq<KdlEntryData>, position: int)
    ensures
        arg_index(entries, position) is Some <==> 0 <= position < arg_count(entries),
    decreases entries.len(),
{
    if entries.len() > 0 {
        if !(entries[0].name is None && position == 0) {
            lemma_arg_index_some(
                entries.drop_first(),
                if entries[0].name is None {
                    position - 1
                } else {
                    position
                },
            );
        }
    }
}

proof fn lemma_arg_count_take(entries: Seq<KdlEntryData>, i: int)
    requires
        0 < i <= entries.len(),
    ensures
        arg_count(entries.take(i)) == arg_count(entries.drop_first().take(i - 1)) + if entries[0].name is None {
            1nat
        } else {
            0nat
        },
{
    assert(entries.take(i).drop_first() =~= entries.drop_first().take(i - 1));
    assert(entries.take(i)[0] == entries[0]);
}

/// The argument at `position` is the unnamed entry with `position`
/// arguments before it.
proof fn lemma_arg_index_at(entries: Seq<KdlEntryData>, position: int, i: int)
    ensures
        arg_index(entries, position) == Some(i) <==> (0 <= i < entries.len() && entries[i].name is None
            && arg_count(entries.take(i)) == position),
    decreases entries.len(),
{
    assert(entries.take(0) =~= Seq::<KdlEntryData>::empty());
    if entries.len() > 0 {
        let rest = entries.drop_first();
        let next = if entries[0].name is None {
            position - 1
        } else {
            position
        };
        if 0 < i <= entries.len() {
            lemma_arg_count_take(entries, i);
        }
        if 0 < i < entries.len() {
            assert(entries[i] == rest[i - 1]);
        }
        if !(entries[0].name is None && position == 0) {
            lemma_arg_index_at(rest, next, i - 1);
        }
    }
}

/// Each argument has fewer than all arguments before it.
proof fn lemma_arg_before(entries: Seq<KdlEntryData>, i: int)
    requires
        0 <= i < entries.len(),
        entries[i].name is None,
    ensures
        arg_count(entries.take(i)) < arg_count(entries),
        arg_index(entries, arg_count(entries.take(i)) as int) == Some(i),
{
    lemma_arg_index_at(entries, arg_count(entries.take(i)) as int, i);
    lemma_arg_index_some(entries, arg_count(entries.take(i)) as int);
}

proof fn lemma_named_indices_contains(entries: Seq<KdlEntryData>, name: Seq<char>, k: int)
    ensures
        named_indices(entries, name).contains(k) <==> (0 <= k < entries.len() && has_name(entries[k], name)),
    decreases entries.len(),
{
    if entries.len() > 0 {
        let init = entries.drop_last();
        let earlier = named_indices(init, name);
        lemma_named_indices_contains(init, name, k);
        lemma_named_indices_bound(init, name);
        if 0 <= k < init.len() {
            assert(init[k] == entries[k]);
        }
        let last = entries.len() - 1;
        if entries.last().name matches Some(n) && n@ == name {
            let all = earlier.push(last);
            assert(all == named_indices(entries, name));
            if earlier.contains(k) {
                let w = choose|w: int| 0 <= w < earlier.len() && earlier[w] == k;
                assert(all[w] == k);
            }
            if k == last {
                assert(all[earlier.len() as int] == k);
            }
            if all.contains(k) {
                let w = choose|w: int| 0 <= w < all.len() && all[w] == k;
                if w < earlier.len() {
                    assert(earlier[w] == k);
                }
            }
        } else {
            if earlier.contains(k) {
                let w = choose|w: int| 0 <= w < earlier.len() && earlier[w] == k;
                assert(0 <= earlier[w] < init.len());
            }
        }
    }
}

proof fn lemma_entry_annotations(entries: Seq<KdlEntryData>, context: Seq<char>)
    ensures
        entry_annotation_problems(entries, context).len() == 0 <==> forall|k: int|
            0 <= k < entries.len() ==> (#[trigger] entries[k]).annotation is None,
    decreases entries.len(),
{
    if entries.len() > 0 {
        let init = entries.drop_last();
        lemma_entry_annotations(init, context);
        assert forall|k: int| 0 <= k < init.len() implies #[trigger] init[k] == entries[k] by {}
        if forall|k: int| 0 <= k < entries.len() ==> (#[trigger] entries[k]).annotation is None {
            assert(entries[entries.len() - 1].annotation is None);
            assert forall|k: int| 0 <= k < init.len() implies (#[trigger] init[k]).annotation is None by {
                assert(entries[k].annotation is None);
            }
        }
        if entry_annotation_problems(entries, context).len() == 0 {
            assert forall|k: int| 0 <= k < entries.len() implies (#[trigger] entries[k]).annotation is None by {
                if k < init.len() {
                    assert(init[k].annotation is None);
                }
            }
        }
    }
}

/// The schema finds no problem with the annotations of a node exactly when
/// it has none.
proof fn lemma_annotations(node: KdlNodeData, context: Seq<char>)
    ensures
        annotation_problems(node, context).len() == 0 <==> unannotated(node),
{
    lemma_entry_annotations(node.entries@, context);
}

proof fn lemma_unclaimed_entries(entries: Seq<KdlEntryData>, used: Seq<bool>, context: Seq<char>)
    ensures
        unclaimed_entry_problems(entries, used, context).len() == 0 <==> forall|k: int|
            0 <= k < entries.len() ==> #[trigger] used[k],
    decreases entries.len(),
{
    if entries.len() > 0 {
        let init = entries.drop_last();
        lemma_unclaimed_entries(init, used, context);
        if forall|k: int| 0 <= k < entries.len() ==> #[trigger] used[k] {
            assert(used[entries.len() - 1]);
        }
    }
}

/// Whether the entry at `k` is claimed by a schema of `count` arguments and
/// the properties `names`.
pub open spec fn entry_claimed(entries: Seq<KdlEntryData>, count: nat, names: Seq<Seq<char>>, k: int) -> bool {
    match entries[k].name {
        Some(n) => names.contains(n@),
        None => arg_count(entries.take(k)) < count,
    }
}

/// With all `count` arguments present, every entry is claimed exactly when
/// there are no more arguments and every property is one of `names`.
proof fn lemma_header_claims(entries: Seq<KdlEntryData>, count: nat, names: Seq<Seq<char>>)
    requires
        count <= arg_count(entries),
    ensures
        (forall|k: int| 0 <= k < entries.len() ==> #[trigger] entry_claimed(entries, count, names, k)) <==> (
        arg_count(entries) == count && named_among(entries, names)),
{
    if forall|k: int| 0 <= k < entries.len() ==> #[trigger] entry_claimed(entries, count, names, k) {
        if arg_count(entries) > count {
            lemma_arg_index_some(entries, count as int);
            let i = arg_index(entries, count as int)->0;
            lemma_arg_index_at(entries, count as int, i);
            assert(entry_claimed(entries, count, names, i));
        }
        assert forall|k: int| 0 <= k < entries.len() implies match (#[trigger] entries[k]).name {
            Some(n) => names.contains(n@),
            None => true,
        } by {
            assert(entry_claimed(entries, count, names, k));
        }
    }
    if arg_count(entries) == count && named_among(entries, names) {
        assert forall|k: int| 0 <= k < entries.len() implies #[trigger] entry_claimed(entries, count, names, k) by {
            if entries[k].name is None {
                lemma_arg_before(entries, k);
            }
        }
    }
}

/// With one argument claimed, every entry is claimed exactly when the
/// header has that one argument and nothing else.
proof fn lemma_one_argument_claims(entries: Seq<KdlEntryData>, initial: Seq<bool>, used: Seq<bool>)
    requires
        initial.len() == entries.len(),
        forall|k: int| 0 <= k < initial.len() ==> !(#[trigger] initial[k]),
        match arg_index(entries, 0) {
            Some(i) => used == initial.update(i, true),
            None => used == initial,
        },
    ensures
        (arg_index(entries, 0) is Some && forall|k: int| 0 <= k < entries.len() ==> #[trigger] used[k]) <==> (
        arg_count(entries) == 1 && named_among(entries, Seq::empty())),
        used == claims(entries, 1, Seq::empty()),
{
    lemma_arg_index_some(entries, 0);
    lemma_arg_index_bound(entries, 0);
    assert forall|k: int| 0 <= k < entries.len() implies #[trigger] used[k] == entry_claimed(
        entries,
        1,
        Seq::empty(),
        k,
    ) by {
        lemma_arg_index_at(entries, 0, k);
        assert(!initial[k]);
        if entries[k].name is Some {
            assert(!Seq::<Seq<char>>::empty().contains(entries[k].name->0@));
        }
    }
    if arg_count(entries) >= 1 {
        lemma_header_claims(entries, 1, Seq::empty());
        if forall|k: int| 0 <= k < entries.len() ==> #[trigger] used[k] {
            assert forall|k: int| 0 <= k < entries.len() implies #[trigger] entry_claimed(
                entries,
                1,
                Seq::empty(),
                k,
            ) by {
                assert(used[k]);
            }
        }
        if forall|k: int| 0 <= k < entries.len() ==> #[trigger] entry_claimed(entries, 1, Seq::empty(), k) {
            assert forall|k: int| 0 <= k < entries.len() implies #[trigger] used[k] by {
                assert(entry_claimed(entries, 1, Seq::empty(), k));
            }
        }
    }
    assert(used =~= claims(entries, 1, Seq::empty()));
}

/// With the argument and the properties `target` and `extends` claimed,
/// every entry is claimed exactly when the header has that one argument
/// and no other property.
proof fn lemma_style_claims(
    entries: Seq<KdlEntryData>,
    initial: Seq<bool>,
    named: Seq<bool>,
    used: Seq<bool>,
)
    requires
        initial.len() == entries.len(),
        used.len() == entries.len(),
        forall|k: int| 0 <= k < initial.len() ==> !(#[trigger] initial[k]),
        match arg_index(entries, 0) {
            Some(i) => named == initial.update(i, true),
            None => named == initial,
        },
        forall|k: int|
            0 <= k < entries.len() ==> #[trigger] used[k] == (named[k] || has_name(entries[k], "target"@)
                || has_name(entries[k], "extends"@)),
    ensures
        (arg_index(entries, 0) is Some && forall|k: int| 0 <= k < entries.len() ==> #[trigger] used[k]) <==> (
        arg_count(entries) == 1 && named_among(entries, seq!["target"@, "extends"@])),
        used == claims(entries, 1, seq!["target"@, "extends"@]),
{
    let names = seq!["target"@, "extends"@];
    lemma_arg_index_some(entries, 0);
    lemma_arg_index_bound(entries, 0);
    assert forall|k: int| 0 <= k < entries.len() implies #[trigger] used[k] == entry_claimed(
        entries,
        1,
        names,
        k,
    ) by {
        lemma_arg_index_at(entries, 0, k);
        assert(!initial[k]);
        if entries[k].name is Some {
            let n = entries[k].name->0@;
            if names.contains(n) {
                let w = choose|w: int| 0 <= w < names.len() && names[w] == n;
                assert(w == 0 || w == 1);
            }
            if n == "target"@ {
                assert(names[0] == n);
            }
            if n == "extends"@ {
                assert(names[1] == n);
            }
        }
    }
    if arg_count(entries) >= 1 {
        lemma_header_claims(entries, 1, names);
        if forall|k: int| 0 <= k < entries.len() ==> #[trigger] used[k] {
            assert forall|k: int| 0 <= k < entries.len() implies #[trigger] entry_claimed(entries, 1, names, k) by {
                assert(used[k]);
            }
        }
        if forall|k: int| 0 <= k < entries.len() ==> #[trigger] entry_claimed(entries, 1, names, k) {
            assert forall|k: int| 0 <= k < entries.len() implies #[trigger] used[k] by {
                assert(entry_claimed(entries, 1, names, k));
            }
        }
    }
    assert(used =~= claims(entries, 1, names));
}

impl Converter {
    /// Converts one property node: `KIND NAME VALUE`.
    #[verifier::spinoff_prover]
    #[verifier::rlimit(100)]
    fn convert_property(&mut self, context: &str, node: &KdlNodeData) -> (r: Option<PropertyAssignment>)
        requires
            is_property_kind(node.name@),
        ensures
            final(self).source_of() == old(self).source_of(),
            grew(old(self).problems(), final(self).problems()),
            final(self).problems().len() == old(self).problems().len() ==> (r matches Some(a)
                && assignment_from(a, *node)),
            final(self).problems().len() == old(self).problems().len() <==> accepted_property(*node),
            final(self).problems() == old(self).problems() + property_node_problems(context@, *node),
    {
        let kind = node.name.as_str();
        let expected = if text_eq(kind, "boolean") {
            Expected::Boolean
        } else if text_eq(kind, "number") {
            Expected::Number
        } else {
            Expected::String
        };
        proof {
            reveal_strlit("boolean");
            reveal_strlit("number");
            assert("boolean"@[0] == 'b' && "number"@[0] == 'n');
            assert(expected == kind_expected(node.name@));
        }
        let ghost e = node.entries@;
        let ghost own = context@ + " property"@;
        let ghost p0 = self.problems();
        let mut raw = NodeDecoder::new(&mut self.decoder, node, concat(context, " property"));
        let ghost p1 = self.problems();
        let ghost u1 = raw.used_of();
        let span = raw.span();
        let raw_name = text_of(raw.required_argument(&mut self.decoder, 0, "name", Expected::String));
        let ghost p2 = self.problems();
        let ghost u2 = raw.used_of();
        let ghost a2 = argument_problems(own, *node, 0, "name"@, Expected::String);
        proof {
            assert(p2 =~= p1 + a2);
        }
        let raw_value = raw.required_argument(&mut self.decoder, 1, "value", expected);
        let ghost p3 = self.problems();
        let ghost used = raw.used_of();
        let ghost a3 = argument_problems(own, *node, 1, "value"@, kind_expected(node.name@));
        proof {
            assert(p3 =~= p2 + a3);
        }
        let ghost name_part = raw_name;
        let ghost value_part = decoded_parts(raw_value);
        raw.finish(&mut self.decoder);
        let ghost p4 = self.problems();
        let ghost a4 = unclaimed_entry_problems(e, claims(e, 2, Seq::empty()), own) + unclaimed_children_problems(
            *node,
            own,
        );
        proof {
            lemma_two_argument_claims(e, u1, u2, used);
            assert(p4 =~= p3 + a4);
        }
        let property_context = match &raw_name {
            Some((n, _)) => Converter::property_context(context, Some(n)),
            None => Converter::property_context(context, None),
        };
        let name = match raw_name {
            Some((text, name_span)) => self.name(property_context.as_str(), text, name_span),
            None => None,
        };
        let ghost p5 = self.problems();
        let ghost a5 = name_problems(property_context@, arg_string(*node, 0));
        proof {
            assert(p5 =~= p4 + a5);
        }
        let value = self.property_value(&property_context, node, raw_value);
        let ghost p6 = self.problems();
        let ghost a6 = value_problems(property_context@, *node);
        let ghost a1 = annotation_problems(*node, own);
        proof {
            assert(property_node_problems(context@, *node) =~= a1 + a2 + a3 + a4 + a5 + a6);
            assert(p6 =~= p0 + property_node_problems(context@, *node));
            lemma_grew_append(p0, property_node_problems(context@, *node));
            lemma_annotations(*node, own);
            lemma_unclaimed_entries(e, claims(e, 2, Seq::empty()), own);
            lemma_arg_index_some(e, 1);
            lemma_arg_index_bound(e, 1);
            assert(a2.len() == 0 <==> arg_text(*node, 0) is Some);
            assert(a3.len() == 0 <==> value_part is Some);
            assert(a5.len() == 0 <==> (name_part is Some ==> name_outcome((name_part->0).0@) is Ok));
            reveal_strlit("string");
            reveal_strlit("token");
            reveal_strlit("resource");
            assert("boolean"@[0] == 'b' && "number"@[0] == 'n' && "string"@[0] == 's' && "token"@[0] == 't'
                && "resource"@[0] == 'r');
            assert(good_text(arg_text(*node, 0)) <==> (arg_text(*node, 0) is Some && a5.len() == 0));
            assert((value_part is Some && a6.len() == 0) <==> value_accepted(node.name@, arg_scalar(*node, 1)));
        }
        match (name, value) {
            (Some(n), Some(v)) => Some(PropertyAssignment::spanned(n, v, span)),
            _ => None,
        }
    }
}

/// With both arguments claimed, every entry is claimed exactly when the
/// header has those two arguments and nothing else.
proof fn lemma_two_argument_claims(
    entries: Seq<KdlEntryData>,
    initial: Seq<bool>,
    first: Seq<bool>,
    used: Seq<bool>,
)
    requires
        initial.len() == entries.len(),
        forall|k: int| 0 <= k < initial.len() ==> !(#[trigger] initial[k]),
        match arg_index(entries, 0) {
            Some(i) => first == initial.update(i, true),
            None => first == initial,
        },
        match arg_index(entries, 1) {
            Some(i) => used == first.update(i, true),
            None => used == first,
        },
    ensures
        used == claims(entries, 2, Seq::empty()),
        (arg_index(entries, 1) is Some && forall|k: int| 0 <= k < entries.len() ==> #[trigger] used[k]) <==> (
        arg_count(entries) == 2 && named_among(entries, Seq::empty())),
{
    lemma_arg_index_some(entries, 1);
    lemma_arg_index_bound(entries, 0);
    lemma_arg_index_bound(entries, 1);
    assert forall|k: int| 0 <= k < entries.len() implies #[trigger] used[k] == entry_claimed(
        entries,
        2,
        Seq::empty(),
        k,
    ) by {
        lemma_arg_index_at(entries, 0, k);
        lemma_arg_index_at(entries, 1, k);
        assert(!initial[k]);
        if entries[k].name is Some {
            assert(!Seq::<Seq<char>>::empty().contains(entries[k].name->0@));
        }
    }
    assert(used =~= claims(entries, 2, Seq::empty()));
    if arg_count(entries) >= 2 {
        lemma_header_claims(entries, 2, Seq::empty());
        if forall|k: int| 0 <= k < entries.len() ==> #[trigger] used[k] {
            assert forall|k: int| 0 <= k < entries.len() implies #[trigger] entry_claimed(
                entries,
                2,
                Seq::empty(),
                k,
            ) by {
                assert(used[k]);
            }
        }
        if forall|k: int| 0 <= k < entries.len() ==> #[trigger] entry_claimed(entries, 2, Seq::empty(), k) {
            assert forall|k: int| 0 <= k < entries.len() implies #[trigger] used[k] by {
                assert(entry_claimed(entries, 2, Seq::empty(), k));
            }
        }
    }
}

impl Converter {
    /// Checks the value of a property node once it has the kind the node
    /// requires: a finite number, a token path, or a resource reference.
    fn property_value(
        &mut self,
        property_context: &String,
        node: &KdlNodeData,
        raw_value: Option<Decoded<DecodedValue>>,
    ) -> (r: Option<StyleValue>)
        requires
            is_property_kind(node.name@),
            decoded_parts(raw_value) == match arg_index(node.entries@, 1) {
                Some(i) => match decodes(node.entries@[i].value, kind_expected(node.name@)) {
                    Some(v) => Some((v, node.entries@[i].span)),
                    None => None,
                },
                None => None,
            },
        ensures
            final(self).source_of() == old(self).source_of(),
            final(self).problems() == old(self).problems() + value_problems(property_context@, *node),
            raw_value is None ==> r is None && value_problems(property_context@, *node).len() == 0,
            raw_value is Some ==> (value_problems(property_context@, *node).len() == 0 <==> value_accepted(
                node.name@,
                arg_scalar(*node, 1),
            )),
            raw_value is Some && value_problems(property_context@, *node).len() == 0 ==> (r matches Some(v)
                && value_from(node.name@, v, arg_scalar(*node, 1))),
    {
        let ghost p5 = self.problems();
        let ghost accepted_value = value_accepted(node.name@, arg_scalar(*node, 1));
        let ghost vp = value_problems(property_context@, *node);
        let kind = node.name.as_str();
        proof {
            reveal_strlit("boolean");
            reveal_strlit("number");
            reveal_strlit("string");
            reveal_strlit("token");
            reveal_strlit("resource");
            assert("boolean"@[0] == 'b' && "number"@[0] == 'n' && "string"@[0] == 's' && "token"@[0] == 't'
                && "resource"@[0] == 'r');
        }
        match raw_value {
            Some(d) => {
                let (v, value_span) = d.into_parts();
                proof {
                    lemma_arg_index_bound(node.entries@, 1);
                    let i1 = arg_index(node.entries@, 1)->0;
                    assert(arg_scalar(*node, 1) == Some(node.entries@[i1].value));
                    assert(decodes(node.entries@[i1].value, kind_expected(node.name@)) == Some(v));
                    reveal_strlit("token");
                    reveal_strlit("resource");
                }
                match v {
                    DecodedValue::Flag(b) => {
                        proof {
                            assert(accepted_value);
                                assert(self.problems() =~= p5 + vp);
                        }
                        Some(StyleValue::Boolean(b))
                    },
                    DecodedValue::Bits(bits) => match Number::new(bits) {
                        Ok(n) => {
                            proof {
                                assert(accepted_value);
                                assert(self.problems() =~= p5 + vp);
                            }
                            Some(StyleValue::Number(n))
                        },
                        Err(e) => {
                            self.decoder.error_at(property_context.clone(), e.to_string(), value_span);
                            proof {
                                assert(!accepted_value);
                                assert(self.problems() =~= p5 + vp);
                            }
                            None
                        },
                    },
                    DecodedValue::Text(text) => {
                        if text_eq(kind, "string") {
                            proof {
                                assert(accepted_value);
                                assert(self.problems() =~= p5 + vp);
                            }
                            Some(StyleValue::String(text))
                        } else if text_eq(kind, "token") {
                            match TokenPath::from_text(text.as_str()) {
                                Ok(p) => {
                                    proof {
                                        assert(accepted_value);
                                assert(self.problems() =~= p5 + vp);
                                    }
                                    Some(StyleValue::Token(p))
                                },
                                Err(e) => {
                                    self.decoder.error_at(property_context.clone(), e.to_string(), value_span);
                                    proof {
                                        reveal_strlit("token");
                                        reveal_strlit("resource");
                                        assert("token"@.len() != "resource"@.len());
                                        assert(text_path_outcome(text@) is Err);
                                        assert(!accepted_value);
                                assert(self.problems() =~= p5 + vp);
                                    }
                                    None
                                },
                            }
                        } else {
                            match ResourceRef::new(text) {
                                Ok(reference) => {
                                    proof {
                                        assert(accepted_value);
                                assert(self.problems() =~= p5 + vp);
                                    }
                                    Some(StyleValue::Resource(reference))
                                },
                                Err(e) => {
                                    self.decoder.error_at(property_context.clone(), e.to_string(), value_span);
                                    proof {
                                        assert(!accepted_value);
                                assert(self.problems() =~= p5 + vp);
                                    }
                                    None
                                },
                            }
                        }
                    },
                }
            },
            None => {
                proof {
                    assert(self.problems() =~= p5 + vp);
                }
                None
            },
        }
    }
}

proof fn lemma_nodes_named_step(nodes: Seq<KdlNodeData>, i: int, name: Seq<char>)
    requires
        0 <= i < nodes.len(),
    ensures
        nodes_named(nodes.take(i + 1), name) == if nodes[i].name@ == name {
            nodes_named(nodes.take(i), name).push(nodes[i])
        } else {
            nodes_named(nodes.take(i), name)
        },
        nodes_not_named(nodes.take(i + 1), name) == if nodes[i].name@ != name {
            nodes_not_named(nodes.take(i), name).push(nodes[i])
        } else {
            nodes_not_named(nodes.take(i), name)
        },
{
    assert(nodes.take(i + 1).drop_last() =~= nodes.take(i));
    assert(nodes.take(i + 1).last() == nodes[i]);
}

impl Converter {
    /// Converts a `state NAME { ... }` node of a style.
    #[verifier::spinoff_prover]
    fn convert_state(&mut self, style_context: &str, node: &KdlNodeData) -> (r: Option<StyleState>)
        ensures
            final(self).source_of() == old(self).source_of(),
            grew(old(self).problems(), final(self).problems()),
            final(self).problems().len() == old(self).problems().len() ==> (r matches Some(st)
                && state_from(st, *node)),
            final(self).problems().len() == old(self).problems().len() <==> accepted_state(*node),
            final(self).problems() == old(self).problems() + state_problems(style_context@, *node),
    {
        let ghost p0 = self.problems();
        let state_context = concat(style_context, " state");
        let mut raw = NodeDecoder::new(&mut self.decoder, node, state_context.clone());
        let ghost p1 = self.problems();
        let ghost u1 = raw.used_of();
        proof {
            lemma_grew_append(p0, annotation_problems(*node, state_context@));
        }
        let span = raw.span();
        let raw_name = text_of(raw.required_argument(&mut self.decoder, 0, "name", Expected::String));
        let ghost name_part = raw_name;
        let children = raw.children();
        let ghost p2 = self.problems();
        let ghost used = raw.used_of();
        proof {
            lemma_grew_trans(p0, p1, p2);
        }
        raw.finish(&mut self.decoder);
        let ghost p3 = self.problems();
        proof {
            assert(p3 =~= p2 + p3.subrange(p2.len() as int, p3.len() as int));
            lemma_grew_append(p2, p3.subrange(p2.len() as int, p3.len() as int));
            lemma_grew_trans(p0, p2, p3);
            let e = node.entries@;
            lemma_annotations(*node, state_context@);
            lemma_one_argument_claims(e, u1, used);
            lemma_unclaimed_entries(e, used, state_context@);
            assert(p1.len() == p0.len() <==> unannotated(*node));
            assert(p2.len() == p1.len() <==> arg_text(*node, 0) is Some);
            assert(p3.len() == p2.len() <==> forall|k: int| 0 <= k < e.len() ==> #[trigger] used[k]);
            assert(p3.len() == p0.len() <==> (plain_header(*node, 1, Seq::empty()) && arg_text(*node, 0) is Some));
            assert(p2 =~= p1 + argument_problems(state_context@, *node, 0, "name"@, Expected::String));
            assert(p3 =~= p0 + annotation_problems(*node, state_context@) + argument_problems(
                state_context@,
                *node,
                0,
                "name"@,
                Expected::String,
            ) + unclaimed_entry_problems(e, claims(e, 1, Seq::empty()), state_context@));
        }
        let context = match &raw_name {
            Some((n, _)) => quote_text(concat(style_context, " state ").as_str(), n.as_str()),
            None => state_context,
        };
        let name = match raw_name {
            Some((text, name_span)) => self.name(context.as_str(), text, name_span),
            None => {
                proof {
                    lemma_grew_refl(p3);
                }
                None
            },
        };
        let ghost p4 = self.problems();
        proof {
            lemma_grew_trans(p0, p3, p4);
            assert(p4.len() == p3.len() <==> (name_part is Some ==> name_outcome((name_part->0).0@) is Ok));
            assert(p4.len() == p0.len() <==> (plain_header(*node, 1, Seq::empty()) && good_text(arg_text(*node, 0))));
            assert(p4 =~= p3 + name_problems(context@, arg_string(*node, 0)));
            assert(children@.take(0) =~= Seq::<KdlNodeData>::empty());
        }
        let mut properties: Vec<PropertyAssignment> = Vec::new();
        let mut i: usize = 0;
        proof {
            lemma_grew_refl(p4);
        }
        while i < children.len()
            invariant
                i <= children@.len(),
                children@ == child_nodes(*node),
                self.source_of() == old(self).source_of(),
                grew(p4, self.problems()),
                self.problems().len() == p4.len() ==> assignments_from(properties@, children@.take(i as int)),
                self.problems().len() == p4.len() <==> forall|j: int| 0 <= j < i ==> accepted_state_child(
                    #[trigger] children@[j],
                ),
                self.problems() == p4 + state_children_problems(context@, children@.take(i as int)),
            decreases children@.len() - i,
        {
            let ghost before = self.problems();
            let child = &children[i];
            if property_kind(child.name.as_str()) {
                match self.convert_property(context.as_str(), child) {
                    Some(a) => properties.push(a),
                    None => {},
                }
            } else {
                self.decoder.unexpected_node(context.as_str(), child);
            }
            proof {
                lemma_grew_trans(p4, before, self.problems());
                assert(self.problems().len() == before.len() <==> accepted_state_child(children@[i as int]));
                assert(children@.take(i + 1).drop_last() =~= children@.take(i as int));
                assert(self.problems() =~= p4 + state_children_problems(context@, children@.take(i + 1)));
                if forall|j: int| 0 <= j < i + 1 ==> accepted_state_child(#[trigger] children@[j]) {
                    assert(accepted_state_child(children@[i as int]));
                }
                if self.problems().len() == p4.len() {
                    assert(children@.take(i + 1) =~= children@.take(i as int).push(children@[i as int]));
                }
            }
            i = i + 1;
        }
        proof {
            assert(children@.take(children@.len() as int) =~= children@);
            lemma_grew_trans(p0, p4, self.problems());
            assert(self.problems() =~= p0 + state_problems(style_context@, *node));
        }
        match name {
            Some(n) => Some(StyleState::spanned(n, properties, span)),
            None => None,
        }
    }
}

impl Converter {
    /// Converts a `style NAME target=TARGET [extends=PARENT] { ... }` node.
    #[verifier::spinoff_prover]
    fn convert_style(&mut self, node: &KdlNodeData) -> (r: Option<StyleDefinition>)
        ensures
            final(self).source_of() == old(self).source_of(),
            grew(old(self).problems(), final(self).problems()),
            final(self).problems().len() == old(self).problems().len() ==> (r matches Some(d)
                && style_from(d, *node)),
            final(self).problems().len() == old(self).problems().len() <==> accepted_style(*node),
            final(self).problems() == old(self).problems() + style_problems(*node),
    {
        let ghost p0 = self.problems();
        let (span, raw_name, raw_target, raw_extends, children) = self.style_header(node);
        let ghost p5 = self.problems();
        let ghost name_part = raw_name;
        let ghost target_part = raw_target;
        let ghost extends_part = raw_extends;
        let context = match &raw_name {
            Some((n, _)) => quote_text("style ", n.as_str()),
            None => owned("style"),
        };
        let name = match raw_name {
            Some((text, s)) => self.name(context.as_str(), text, s),
            None => None,
        };
        let ghost p6 = self.problems();
        let ghost a6 = name_problems(context@, arg_string(*node, 0));
        proof {
            assert(p6 =~= p5 + a6);
        }
        let target = match raw_target {
            Some((text, s)) => self.name(concat(context.as_str(), " target").as_str(), text, s),
            None => None,
        };
        let ghost p7 = self.problems();
        let ghost a7 = name_problems(context@ + " target"@, prop_string(*node, "target"@));
        proof {
            assert(p7 =~= p6 + a7);
        }
        let extends = match raw_extends {
            Some((text, s)) => self.name(concat(context.as_str(), " extends").as_str(), text, s),
            None => None,
        };
        let ghost p8 = self.problems();
        let ghost a8 = name_problems(context@ + " extends"@, prop_string(*node, "extends"@));
        proof {
            assert(p8 =~= p7 + a8);
        }
        let (properties, states) = self.convert_style_children(&context, children);
        let ghost a9 = style_children_problems(context@, child_nodes(*node));
        let ghost head = style_header_problems(*node);
        proof {
            assert(style_problems(*node) =~= head + a6 + a7 + a8 + a9);
            assert(self.problems() =~= p0 + style_problems(*node));
            lemma_grew_append(p0, style_problems(*node));
            assert(a6.len() == 0 <==> (name_part is Some ==> name_outcome((name_part->0).0@) is Ok));
            assert(a7.len() == 0 <==> (target_part is Some ==> name_outcome((target_part->0).0@) is Ok));
            assert(a8.len() == 0 <==> (extends_part is Some ==> name_outcome((extends_part->0).0@) is Ok));
            assert(good_text(arg_text(*node, 0)) <==> (arg_text(*node, 0) is Some && a6.len() == 0));
            assert(good_text(prop_text(*node, "target"@)) <==> (prop_text(*node, "target"@) is Some && a7.len() == 0));
            assert(good_text(prop_text(*node, "extends"@)) <==> (prop_text(*node, "extends"@) is Some && a8.len() == 0));
        }
        match (name, target) {
            (Some(n), Some(t)) => Some(StyleDefinition::spanned(n, t, extends, properties, states, span)),
            _ => None,
        }
    }

    /// Decodes the header of a style: its name, `target` and `extends`,
    /// and claims its children.
    #[verifier::spinoff_prover]
    #[verifier::rlimit(60)]
    fn style_header<'n>(&mut self, node: &'n KdlNodeData) -> (r: (
        Span,
        Option<(String, Span)>,
        Option<(String, Span)>,
        Option<(String, Span)>,
        &'n [KdlNodeData],
    ))
        ensures
            final(self).source_of() == old(self).source_of(),
            final(self).problems() == old(self).problems() + style_header_problems(*node),
            style_header_problems(*node).len() == 0 <==> style_header_accepted(*node),
            r.0 == node.span,
            located_text(r.1) == arg_string(*node, 0),
            located_text(r.2) == prop_string(*node, "target"@),
            located_text(r.3) == prop_string(*node, "extends"@),
            r.4@ == child_nodes(*node),
    {
        let ghost p0 = self.problems();
        let mut raw = NodeDecoder::new(&mut self.decoder, node, owned("style"));
        let ghost p1 = self.problems();
        let ghost u1 = raw.used_of();
        let span = raw.span();
        let raw_name = text_of(raw.required_argument(&mut self.decoder, 0, "name", Expected::String));
        let ghost p2 = self.problems();
        let ghost u2 = raw.used_of();
        proof {
            assert(p2 =~= p1 + argument_problems("style"@, *node, 0, "name"@, Expected::String));
        }
        let raw_target = text_of(raw.property(&mut self.decoder, "target", true, Expected::String));
        let ghost p3 = self.problems();
        let ghost u3 = raw.used_of();
        proof {
            assert(p3 =~= p2 + property_problems("style"@, *node, "target"@, true, Expected::String));
        }
        let raw_extends = text_of(raw.property(&mut self.decoder, "extends", false, Expected::String));
        let ghost p4 = self.problems();
        let ghost u4 = raw.used_of();
        proof {
            assert(p4 =~= p3 + property_problems("style"@, *node, "extends"@, false, Expected::String));
        }
        let children = raw.children();
        raw.finish(&mut self.decoder);
        let ghost p5 = self.problems();
        proof {
            let e = node.entries@;
            let found_t = named_indices(e, "target"@);
            let found_x = named_indices(e, "extends"@);
            lemma_named_indices_bound(e, "target"@);
            lemma_named_indices_bound(e, "extends"@);
            assert forall|k: int| 0 <= k < e.len() implies #[trigger] u4[k] == (u2[k] || has_name(e[k], "target"@)
                || has_name(e[k], "extends"@)) by {
                lemma_named_indices_contains(e, "target"@, k);
                lemma_named_indices_contains(e, "extends"@, k);
                if found_t.len() == 0 {
                    assert(u3 == u2);
                } else {
                    assert(u3[k] == (u2[k] || found_t.contains(k)));
                }
                if found_x.len() == 0 {
                    assert(u4 == u3);
                } else {
                    assert(u4[k] == (u3[k] || found_x.contains(k)));
                }
            }
            lemma_style_claims(e, u1, u2, u4);
            lemma_unclaimed_entries(e, u4, "style"@);
            lemma_annotations(*node, "style"@);
            let names = seq!["target"@, "extends"@];
            assert(names[0] == "target"@ && names[1] == "extends"@);
            assert(p5 =~= p4 + unclaimed_entry_problems(e, claims(e, 1, names), "style"@));
            assert(p5 =~= p0 + style_header_problems(*node));
        }
        (span, raw_name, raw_target, raw_extends, children)
    }

    /// Converts the children of a style: its states and properties.
    fn convert_style_children(&mut self, context: &String, children: &[KdlNodeData]) -> (r: (
        Vec<PropertyAssignment>,
        Vec<StyleState>,
    ))
        ensures
            final(self).source_of() == old(self).source_of(),
            grew(old(self).problems(), final(self).problems()),
            final(self).problems().len() == old(self).problems().len() ==> assignments_from(
                r.0@,
                nodes_not_named(children@, "state"@),
            ) && states_from(r.1@, nodes_named(children@, "state"@)),
            final(self).problems().len() == old(self).problems().len() <==> forall|j: int|
                0 <= j < children@.len() ==> accepted_style_child(#[trigger] children@[j]),
            final(self).problems() == old(self).problems() + style_children_problems(context@, children@),
    {
        let ghost start = self.problems();
        proof {
            assert(children@.take(0) =~= Seq::<KdlNodeData>::empty());
            assert(start =~= start + style_children_problems(context@, children@.take(0)));
        }
        let mut properties: Vec<PropertyAssignment> = Vec::new();
        let mut states: Vec<StyleState> = Vec::new();
        let mut i: usize = 0;
        proof {
            lemma_grew_refl(start);
        }
        while i < children.len()
            invariant
                i <= children@.len(),
                self.source_of() == old(self).source_of(),
                grew(start, self.problems()),
                self.problems().len() == start.len() ==> assignments_from(
                    properties@,
                    nodes_not_named(children@.take(i as int), "state"@),
                ) && states_from(states@, nodes_named(children@.take(i as int), "state"@)),
                self.problems().len() == start.len() <==> forall|j: int| 0 <= j < i ==> accepted_style_child(
                    #[trigger] children@[j],
                ),
                self.problems() == start + style_children_problems(context@, children@.take(i as int)),
            decreases children@.len() - i,
        {
            let ghost before = self.problems();
            let child = &children[i];
            proof {
                lemma_nodes_named_step(children@, i as int, "state"@);
            }
            if text_eq(child.name.as_str(), "state") {
                match self.convert_state(context.as_str(), child) {
                    Some(st) => states.push(st),
                    None => {},
                }
            } else if property_kind(child.name.as_str()) {
                match self.convert_property(context.as_str(), child) {
                    Some(a) => properties.push(a),
                    None => {},
                }
            } else {
                self.decoder.unexpected_node(context.as_str(), child);
            }
            proof {
                lemma_grew_trans(start, before, self.problems());
                assert(self.problems().len() == before.len() <==> accepted_style_child(children@[i as int]));
                assert(children@.take(i + 1).drop_last() =~= children@.take(i as int));
                assert(self.problems() =~= start + style_children_problems(context@, children@.take(i + 1)));
                if forall|j: int| 0 <= j < i + 1 ==> accepted_style_child(#[trigger] children@[j]) {
                    assert(accepted_style_child(children@[i as int]));
                }
            }
            i = i + 1;
        }
        proof {
            assert(children@.take(children@.len() as int) =~= children@);
        }
        (properties, states)
    }

    /// Converts a `tokens PATH` or `import PATH` node.
    fn convert_source_path(&mut self, context: &str, node: &KdlNodeData) -> (r: Option<String>)
        ensures
            final(self).source_of() == old(self).source_of(),
            grew(old(self).problems(), final(self).problems()),
            final(self).problems().len() == old(self).problems().len() ==> (r matches Some(p)
                && arg_text(*node, 0) == Some(p@)),
            final(self).problems().len() == old(self).problems().len() <==> accepted_source_path(*node),
            final(self).problems() == old(self).problems() + source_path_problems(context@, *node),
    {
        let ghost p0 = self.problems();
        let mut raw = NodeDecoder::new(&mut self.decoder, node, owned(context));
        let ghost p1 = self.problems();
        let ghost u1 = raw.used_of();
        proof {
            lemma_grew_append(p0, annotation_problems(*node, context@));
        }
        let raw_path = text_of(raw.required_argument(&mut self.decoder, 0, "path", Expected::String));
        let ghost p2 = self.problems();
        let ghost used = raw.used_of();
        raw.finish(&mut self.decoder);
        let ghost p3 = self.problems();
        proof {
            assert(p3 =~= p2 + p3.subrange(p2.len() as int, p3.len() as int));
            lemma_grew_append(p2, p3.subrange(p2.len() as int, p3.len() as int));
            lemma_grew_trans(p0, p1, p2);
            lemma_grew_trans(p0, p2, p3);
            let e = node.entries@;
            lemma_annotations(*node, context@);
            lemma_one_argument_claims(e, u1, used);
            lemma_unclaimed_entries(e, used, context@);
            assert(p1.len() == p0.len() <==> unannotated(*node));
            assert(p2.len() == p1.len() <==> arg_text(*node, 0) is Some);
            assert(p3.len() == p2.len() <==> (child_nodes(*node).len() == 0 && forall|k: int|
                0 <= k < e.len() ==> #[trigger] used[k]));
            assert(p2 =~= p1 + argument_problems(context@, *node, 0, "path"@, Expected::String));
            assert(p3 =~= p2 + unclaimed_entry_problems(e, claims(e, 1, Seq::empty()), context@)
                + unclaimed_children_problems(*node, context@));
        }
        let r = match raw_path {
            Some((text, s)) => {
                let r = self.source_path(context, text, s);
                proof {
                    lemma_grew_trans(p0, p3, self.problems());
                }
                r
            },
            None => None,
        };
        proof {
            assert(self.problems() =~= p3 + path_problems(context@, arg_string(*node, 0)));
            assert(self.problems() =~= p0 + source_path_problems(context@, *node));
        }
        r
    }

    /// Converts the declarations of a theme or fragment.
    #[verifier::spinoff_prover]
    fn convert_declarations(&mut self, context: &str, nodes: &[KdlNodeData]) -> (r: (
        Vec<String>,
        Vec<String>,
        Vec<StyleDefinition>,
    ))
        ensures
            final(self).source_of() == old(self).source_of(),
            grew(old(self).problems(), final(self).problems()),
            final(self).problems().len() == old(self).problems().len() ==> {
                &&& paths_from(r.0@, nodes_named(nodes@, "tokens"@))
                &&& paths_from(r.1@, nodes_named(nodes@, "import"@))
                &&& styles_from(r.2@, nodes_named(nodes@, "style"@))
            },
            final(self).problems().len() == old(self).problems().len() <==> accepted_declarations(nodes@),
            final(self).problems() == old(self).problems() + declarations_problems(context@, nodes@),
    {
        let ghost p0 = self.problems();
        let mut token_sources: Vec<String> = Vec::new();
        let mut imports: Vec<String> = Vec::new();
        let mut styles: Vec<StyleDefinition> = Vec::new();
        let mut i: usize = 0;
        proof {
            lemma_grew_refl(p0);
            assert(nodes@.take(0) =~= Seq::<KdlNodeData>::empty());
            assert(p0 =~= p0 + declarations_problems(context@, nodes@.take(0)));
        }
        while i < nodes.len()
            invariant
                i <= nodes@.len(),
                self.source_of() == old(self).source_of(),
                grew(p0, self.problems()),
                self.problems().len() == p0.len() ==> {
                    &&& paths_from(token_sources@, nodes_named(nodes@.take(i as int), "tokens"@))
                    &&& paths_from(imports@, nodes_named(nodes@.take(i as int), "import"@))
                    &&& styles_from(styles@, nodes_named(nodes@.take(i as int), "style"@))
                },
                self.problems().len() == p0.len() <==> forall|j: int| 0 <= j < i ==> accepted_declaration(
                    #[trigger] nodes@[j],
                ),
                self.problems() == p0 + declarations_problems(context@, nodes@.take(i as int)),
            decreases nodes@.len() - i,
        {
            let ghost before = self.problems();
            let child = &nodes[i];
            proof {
                lemma_nodes_named_step(nodes@, i as int, "tokens"@);
                lemma_nodes_named_step(nodes@, i as int, "import"@);
                lemma_nodes_named_step(nodes@, i as int, "style"@);
                reveal_strlit("tokens");
                reveal_strlit("import");
                reveal_strlit("style");
                assert("tokens"@[0] == 't' && "import"@[0] == 'i' && "style"@[0] == 's');
                assert("tokens"@ != "import"@ && "tokens"@ != "style"@ && "import"@ != "style"@);
            }
            if text_eq(child.name.as_str(), "tokens") {
                match self.convert_source_path("tokens", child) {
                    Some(p) => token_sources.push(p),
                    None => {},
                }
            } else if text_eq(child.name.as_str(), "import") {
                match self.convert_source_path("import", child) {
                    Some(p) => imports.push(p),
                    None => {},
                }
            } else if text_eq(child.name.as_str(), "style") {
                match self.convert_style(child) {
                    Some(d) => styles.push(d),
                    None => {},
                }
            } else {
                self.decoder.unexpected_node(context, child);
            }
            proof {
                lemma_grew_trans(p0, before, self.problems());
                assert(nodes@.take(i + 1).drop_last() =~= nodes@.take(i as int));
                assert(self.problems() =~= p0 + declarations_problems(context@, nodes@.take(i + 1)));
                assert(self.problems().len() == before.len() <==> accepted_declaration(nodes@[i as int]));
                if forall|j: int| 0 <= j < i + 1 ==> accepted_declaration(#[trigger] nodes@[j]) {
                    assert(accepted_declaration(nodes@[i as int]));
                }
                if self.problems().len() == p0.len() {
                    assert(before.len() == p0.len());
                    let t = nodes_named(nodes@.take(i + 1), "tokens"@);
                    assert(paths_from(token_sources@, t)) by {
                        if child.name@ == "tokens"@ {
                            assert(t == nodes_named(nodes@.take(i as int), "tokens"@).push(*child));
                            assert(token_sources@.last()@ == arg_text(*child, 0)->0);
                            assert forall|k: int| 0 <= k < token_sources@.len() implies arg_text(t[k], 0) == Some((#[trigger] token_sources@[k])@) by {
                                if k < token_sources@.len() - 1 {
                                    assert(t[k] == nodes_named(nodes@.take(i as int), "tokens"@)[k]);
                                }
                            }
                        }
                    }
                    let m = nodes_named(nodes@.take(i + 1), "import"@);
                    assert(paths_from(imports@, m)) by {
                        if child.name@ == "import"@ {
                            assert(m == nodes_named(nodes@.take(i as int), "import"@).push(*child));
                            assert forall|k: int| 0 <= k < imports@.len() implies arg_text(m[k], 0) == Some((#[trigger] imports@[k])@) by {
                                if k < imports@.len() - 1 {
                                    assert(m[k] == nodes_named(nodes@.take(i as int), "import"@)[k]);
                                }
                            }
                        }
                    }
                    let st = nodes_named(nodes@.take(i + 1), "style"@);
                    assert(styles_from(styles@, st)) by {
                        if child.name@ == "style"@ {
                            assert(st == nodes_named(nodes@.take(i as int), "style"@).push(*child));
                            assert forall|k: int| 0 <= k < styles@.len() implies style_from(#[trigger] styles@[k], st[k]) by {
                                if k < styles@.len() - 1 {
                                    assert(st[k] == nodes_named(nodes@.take(i as int), "style"@)[k]);
                                }
                            }
                        }
                    }
                }
            }
            i = i + 1;
        }
        assert(nodes@.take(nodes@.len() as int) =~= nodes@);
        (token_sources, imports, styles)
    }

    /// Converts a `theme NAME { ... }` node.
    fn convert_theme(&mut self, node: &KdlNodeData) -> (r: Option<StyleDocument>)
        ensures
            final(self).source_of() == old(self).source_of(),
            grew(old(self).problems(), final(self).problems()),
            final(self).problems().len() == old(self).problems().len() ==> (r matches Some(doc)
                && document_from(doc, old(self).source_of(), arg_text(*node, 0), child_nodes(*node))),
            final(self).problems().len() == old(self).problems().len() <==> accepted_theme(*node),
            final(self).problems() == old(self).problems() + theme_problems(*node),
    {
        let ghost p0 = self.problems();
        let mut raw = NodeDecoder::new(&mut self.decoder, node, owned("theme"));
        let ghost p1 = self.problems();
        let ghost u1 = raw.used_of();
        proof {
            lemma_grew_append(p0, annotation_problems(*node, "theme"@));
        }
        let raw_name = text_of(raw.required_argument(&mut self.decoder, 0, "name", Expected::String));
        let ghost p2 = self.problems();
        let ghost used = raw.used_of();
        let ghost name_part = raw_name;
        let children = raw.children();
        raw.finish(&mut self.decoder);
        let ghost p3 = self.problems();
        proof {
            assert(p3 =~= p2 + p3.subrange(p2.len() as int, p3.len() as int));
            lemma_grew_append(p2, p3.subrange(p2.len() as int, p3.len() as int));
            lemma_grew_trans(p0, p1, p2);
            lemma_grew_trans(p0, p2, p3);
            let e = node.entries@;
            lemma_annotations(*node, "theme"@);
            lemma_one_argument_claims(e, u1, used);
            lemma_unclaimed_entries(e, used, "theme"@);
            assert(p1.len() == p0.len() <==> unannotated(*node));
            assert(p2.len() == p1.len() <==> arg_text(*node, 0) is Some);
            assert(p3.len() == p2.len() <==> forall|k: int| 0 <= k < e.len() ==> #[trigger] used[k]);
            assert(p2 =~= p1 + argument_problems("theme"@, *node, 0, "name"@, Expected::String));
            assert(p3 =~= p2 + unclaimed_entry_problems(e, claims(e, 1, Seq::empty()), "theme"@));
        }
        let name = match raw_name {
            Some((text, s)) => self.name("theme", text, s),
            None => {
                proof {
                    lemma_grew_refl(self.problems());
                }
                None
            },
        };
        let ghost p4 = self.problems();
        let (token_sources, imports, styles) = self.convert_declarations("theme", children);
        proof {
            lemma_grew_trans(p0, p3, p4);
            lemma_grew_trans(p0, p4, self.problems());
            assert(p4.len() == p3.len() <==> (name_part is Some ==> name_outcome((name_part->0).0@) is Ok));
            assert(p4 =~= p3 + name_problems("theme"@, arg_string(*node, 0)));
            assert(self.problems() =~= p0 + theme_problems(*node));
        }
        match name {
            Some(n) => Some(
                StyleDocument::new(self.decoder.source(), n, token_sources, imports, styles),
            ),
            None => None,
        }
    }

    /// Converts the top-level declarations of a fragment.
    fn convert_fragment(&mut self, nodes: &[KdlNodeData]) -> (r: StyleDocument)
        ensures
            final(self).source_of() == old(self).source_of(),
            grew(old(self).problems(), final(self).problems()),
            final(self).problems().len() == old(self).problems().len() ==> document_from(
                r,
                old(self).source_of(),
                None,
                nodes@,
            ),
            final(self).problems().len() == old(self).problems().len() <==> accepted_declarations(nodes@),
            final(self).problems() == old(self).problems() + declarations_problems("document"@, nodes@),
    {
        let (token_sources, imports, styles) = self.convert_declarations("document", nodes);
        StyleDocument::fragment(self.decoder.source(), token_sources, imports, styles)
    }
}

/// Whether a top-level node may appear in a fragment.
pub open spec fn declaration_kind(name: Seq<char>) -> bool {
    name == "tokens"@ || name == "import"@ || name == "style"@
}

/// A theme document: exactly one top-level node, named `theme`.
pub open spec fn theme_root(nodes: Seq<KdlNodeData>) -> bool {
    nodes.len() == 1 && nodes[0].name@ == "theme"@
}

/// A fragment: at least one top-level node, each a declaration.
pub open spec fn fragment_nodes(nodes: Seq<KdlNodeData>) -> bool {
    nodes.len() > 0 && forall|i: int| 0 <= i < nodes.len() ==> declaration_kind(#[trigger] nodes[i].name@)
}

/// Every error is a structure error.
pub open spec fn structural(errors: Seq<ParseError>) -> bool {
    forall|i: int| 0 <= i < errors.len() ==> (#[trigger] errors[i]) is Structure
}

/// The only error of `r` is the structure problem `p`.
pub open spec fn fails_with(r: Result<StyleDocument, ParseErrors>, p: Problem) -> bool {
    match r {
        Err(e) => e.items().len() == 1 && match e.items()[0] {
            ParseError::Structure(s) => s.problem() == p,
            _ => false,
        },
        Ok(_) => false,
    }
}

/// What converting the top-level nodes of a document gives.
pub open spec fn nodes_outcome(
    source: SourceId,
    nodes: Seq<KdlNodeData>,
    r: Result<StyleDocument, ParseErrors>,
) -> bool {
    &&& theme_root(nodes) ==> (r is Ok <==> accepted_theme(nodes[0]))
    &&& !theme_root(nodes) && fragment_nodes(nodes) ==> (r is Ok <==> accepted_declarations(nodes))
    &&& theme_root(nodes) ==> (r matches Err(e) ==> reports(e.items(), theme_problems(nodes[0])))
    &&& !theme_root(nodes) && fragment_nodes(nodes) ==> (r matches Err(e) ==> reports(
        e.items(),
        declarations_problems("document"@, nodes),
    ))
    &&& theme_root(nodes) ==> (r matches Ok(doc) ==> document_from(
        doc,
        source,
        arg_text(nodes[0], 0),
        child_nodes(nodes[0]),
    ))
    &&& !theme_root(nodes) && fragment_nodes(nodes) ==> (r matches Ok(doc) ==> document_from(
        doc,
        source,
        None,
        nodes,
    ))
    &&& !theme_root(nodes) && !fragment_nodes(nodes) && nodes.len() == 1 ==> fails_with(
        r,
        Problem {
            context: "document"@,
            message: quote_after("expected theme node, found "@, nodes[0].name@),
            span: Some(nodes[0].name_span),
        },
    )
    &&& !theme_root(nodes) && !fragment_nodes(nodes) && nodes.len() != 1 ==> fails_with(
        r,
        Problem { context: "document"@, message: "expected exactly one theme node"@, span: None },
    )
    &&& r matches Err(e) ==> e.items().len() > 0 && structural(e.items())
}

fn structure_errors(errors: Vec<StructureError>) -> (r: Vec<ParseError>)
    ensures
        r@.len() == errors@.len(),
        structural(r@),
        forall|i: int| 0 <= i < r@.len() ==> #[trigger] r@[i] == ParseError::Structure(errors@[i]),
{
    let mut r: Vec<ParseError> = Vec::new();
    let mut rest = errors;
    let ghost all = rest@;
    let count = rest.len();
    while rest.len() > 0
        invariant
            r@.len() + rest@.len() == count,
            all.len() == count,
            rest@ == all.subrange(r@.len() as int, count as int),
            structural(r@),
            forall|i: int| 0 <= i < r@.len() ==> #[trigger] r@[i] == ParseError::Structure(all[i]),
        decreases rest@.len(),
    {
        let e = rest.remove(0);
        r.push(ParseError::Structure(e));
    }
    r
}

/// The problem of each structure error among `items`.
pub open spec fn item_problems(items: Seq<ParseError>) -> Seq<Problem> {
    items.map_values(
        |e: ParseError|
            match e {
                ParseError::Structure(s) => s.problem(),
                ParseError::Syntax(_) => Problem { context: Seq::empty(), message: Seq::empty(), span: None },
            },
    )
}

/// The problems of `problems` that start at `key`, in order.
pub open spec fn starting_at(problems: Seq<Problem>, key: usize) -> Seq<Problem> {
    problems.filter(|p: Problem| start_key(p) == key)
}

/// `items` report exactly `problems`, as structure errors ordered by where
/// they start; problems with the same start keep their order.
pub open spec fn reports(items: Seq<ParseError>, problems: Seq<Problem>) -> bool {
    &&& structural(items)
    &&& forall|i: int, j: int|
        0 <= i < j < items.len() ==> start_key(#[trigger] item_problems(items)[i]) <= start_key(
            #[trigger] item_problems(items)[j],
        )
    &&& forall|key: usize| #[trigger] starting_at(item_problems(items), key) == starting_at(problems, key)
}

proof fn lemma_problems_with_key(errors: Seq<StructureError>, key: usize)
    ensures
        problems_of(with_key(errors, key)) == starting_at(problems_of(errors), key),
    decreases errors.len(),
{
    reveal(Seq::filter);
    if errors.len() > 0 {
        let init = errors.drop_last();
        lemma_problems_with_key(init, key);
        assert(problems_of(errors).drop_last() =~= problems_of(init));
        assert(problems_of(errors).last() == errors.last().problem());
        if start_key(errors.last().problem()) == key {
            assert(problems_of(with_key(errors, key)) =~= problems_of(with_key(init, key)).push(
                errors.last().problem(),
            ));
        } else {
            assert(problems_of(with_key(errors, key)) =~= problems_of(with_key(init, key)));
        }
    } else {
        assert(problems_of(with_key(errors, key)) =~= starting_at(problems_of(errors), key));
    }
}

/// Converts the top-level nodes of a parsed KDL document.
pub fn parse_nodes(source: SourceId, nodes: &[KdlNodeData]) -> (r: Result<StyleDocument, ParseErrors>)
    ensures
        nodes_outcome(source, nodes@, r),
{
    proof {
        reveal_strlit("theme");
        reveal_strlit("tokens");
        reveal_strlit("import");
        reveal_strlit("style");
    }
    let mut all_declarations = nodes.len() > 0;
    let mut i: usize = 0;
    while i < nodes.len()
        invariant
            i <= nodes@.len(),
            all_declarations == (nodes@.len() > 0 && forall|k: int| 0 <= k < i ==> declaration_kind(
                #[trigger] nodes@[k].name@,
            )),
        decreases nodes@.len() - i,
    {
        let name = nodes[i].name.as_str();
        if !(text_eq(name, "tokens") || text_eq(name, "import") || text_eq(name, "style")) {
            all_declarations = false;
        }
        i = i + 1;
    }
    let is_theme = nodes.len() == 1 && text_eq(nodes[0].name.as_str(), "theme");
    let mut converter = Converter::new(source);
    let document = if is_theme {
        converter.convert_theme(&nodes[0])
    } else if all_declarations {
        Some(converter.convert_fragment(nodes))
    } else if nodes.len() == 1 {
        let message = quote_text("expected theme node, found ", nodes[0].name.as_str());
        let e = ParseError::Structure(StructureError::at(owned("document"), message, nodes[0].name_span));
        let r = Errors::one(e);
        return Err(r);
    } else {
        let e = ParseError::Structure(
            StructureError::new(owned("document"), owned("expected exactly one theme node")),
        );
        return Err(Errors::one(e));
    };
    let ghost found = converter.problems();
    let errors = converter.into_errors();
    proof {
        broadcast use vstd::seq_lib::group_to_multiset_ensures;
        assert(problems_of(converter.recorded()).len() == converter.recorded().len());
        assert(errors@.to_multiset().len() == errors@.len());
        assert(converter.recorded().to_multiset().len() == converter.recorded().len());
        assert(errors@.len() == 0 <==> found.len() == 0);
        assert forall|key: usize| #[trigger] starting_at(problems_of(errors@), key) == starting_at(found, key) by {
            lemma_problems_with_key(errors@, key);
            lemma_problems_with_key(converter.recorded(), key);
        }
    }
    if errors.len() == 0 {
        match document {
            Some(doc) => Ok(doc),
            None => Err(
                Errors::one(
                    ParseError::Structure(
                        StructureError::new(owned("theme"), owned("theme could not be converted")),
                    ),
                ),
            ),
        }
    } else {
        let ghost listed = problems_of(errors@);
        let items = structure_errors(errors);
        proof {
            assert(item_problems(items@) =~= listed);
        }
        Err(Errors::new(items))
    }
}

/// The value that `raw` holds.
pub open spec fn raw_scalar_view(raw: RawScalar) -> RawValue {
    match raw {
        RawScalar::String(s) => RawValue::String(s@),
        RawScalar::Integer(n) => RawValue::Integer(n),
        RawScalar::Float(b) => RawValue::Float(b),
        RawScalar::Bool(b) => RawValue::Bool(b),
        RawScalar::Null => RawValue::Null,
    }
}

/// `shape` gives the name, offset, length and annotation of `entry`.
pub open spec fn entry_shape_is(
    shape: (Option<String>, usize, usize, Option<(usize, usize)>),
    entry: RawEntry,
) -> bool {
    &&& (match (shape.0, entry.name) {
        (Some(a), Some(b)) => a@ == b,
        (None, None) => true,
        _ => false,
    })
    &&& shape.1 == entry.offset
    &&& shape.2 == entry.length
    &&& shape.3 == entry.annotation
}

/// A parsed `kdl` document.
#[verifier::external_type_specification]
#[verifier::external_body]
pub struct ExKdlDocument(kdl::KdlDocument);

/// A `kdl` node.
#[verifier::external_type_specification]
#[verifier::external_body]
pub struct ExKdlNode(kdl::KdlNode);

/// A KDL value as `kdl` gives it.
pub enum RawScalar {
    String(String),
    Integer(i128),
    Float(u64),
    Bool(bool),
    Null,
}

/// A KDL value as `kdl` holds it: a float by its bit pattern.
pub enum RawValue {
    String(Seq<char>),
    Integer(i128),
    Float(u64),
    Bool(bool),
    Null,
}

/// A KDL entry as `kdl` holds it: its name, where it stands (offset and
/// length), where its type annotation stands, and its value.
pub struct RawEntry {
    pub name: Option<Seq<char>>,
    pub offset: usize,
    pub length: usize,
    pub annotation: Option<(usize, usize)>,
    pub value: RawValue,
}

/// A KDL node as `kdl` holds it: its name and where the name stands, where
/// the node and its type annotation stand, its entries and its children.
pub struct RawNode {
    pub name: Seq<char>,
    pub name_offset: usize,
    pub name_length: usize,
    pub offset: usize,
    pub length: usize,
    pub annotation: Option<(usize, usize)>,
    pub entries: Seq<RawEntry>,
    pub children: Option<Seq<RawNode>>,
}

/// What `kdl::KdlDocument::parse_v2` gives for `text`: the top-level nodes
/// of the document it parses the text to, or, where it refuses the text,
/// its diagnostics, each by the offset and length of its span and its
/// message.
pub uninterp spec fn kdl_document(text: Seq<char>) -> Result<Seq<RawNode>, Seq<(usize, usize, Option<Seq<char>>)>>;

/// A parser diagnostic with its message as text.
pub open spec fn diagnostic_view(d: (usize, usize, Option<String>)) -> (usize, usize, Option<Seq<char>>) {
    (d.0, d.1, match d.2 {
        Some(m) => Some(m@),
        None => None,
    })
}

/// The top-level nodes that a `kdl::KdlDocument` holds.
pub uninterp spec fn kdl_document_nodes(document: kdl::KdlDocument) -> Seq<RawNode>;

/// What a `kdl::KdlNode` holds.
pub uninterp spec fn kdl_node_contents(node: kdl::KdlNode) -> RawNode;

/// Parses KDL 2 text (`kdl::KdlDocument::parse_v2`), which depends on the
/// text alone: its result is what [`kdl_document`] names, the document
/// holding those nodes, and a failure given by its diagnostics in order
/// (`KdlError::diagnostics`, with `SourceSpan::offset` and `len`).
#[verifier::external_body]
fn kdl_parse(input: &str) -> (r: Result<kdl::KdlDocument, Vec<(usize, usize, Option<String>)>>)
    ensures
        match r {
            Ok(d) => kdl_document(input@) == Ok::<Seq<RawNode>, Seq<(usize, usize, Option<Seq<char>>)>>(
                kdl_document_nodes(d),
            ),
            Err(ds) => kdl_document(input@) == Err::<Seq<RawNode>, Seq<(usize, usize, Option<Seq<char>>)>>(
                ds@.map_values(|d: (usize, usize, Option<String>)| diagnostic_view(d)),
            ),
        },
{
    match kdl::KdlDocument::parse_v2(input) {
        Ok(document) => Ok(document),
        Err(error) => Err(
            error.diagnostics.iter().map(|d| (d.span.offset(), d.span.len(), d.message.clone())).collect(),
        ),
    }
}

/// The top-level nodes of a document (`KdlDocument::nodes`).
#[verifier::external_body]
fn kdl_nodes(document: &kdl::KdlDocument) -> (r: &[kdl::KdlNode])
    ensures
        r@.len() == kdl_document_nodes(*document).len(),
        forall|i: int| 0 <= i < r@.len() ==> kdl_node_contents(#[trigger] r@[i]) == kdl_document_nodes(*document)[i],
{
    document.nodes()
}

/// A node's name, with the offset and length of the name
/// (`KdlNode::name`, `KdlIdentifier::value` and `span`).
#[verifier::external_body]
fn kdl_node_name(node: &kdl::KdlNode) -> (r: (String, usize, usize))
    ensures
        r.0@ == kdl_node_contents(*node).name,
        r.1 == kdl_node_contents(*node).name_offset,
        r.2 == kdl_node_contents(*node).name_length,
{
    (node.name().value().to_owned(), node.name().span().offset(), node.name().span().len())
}

/// A node's offset and length (`KdlNode::span`).
#[verifier::external_body]
fn kdl_node_span(node: &kdl::KdlNode) -> (r: (usize, usize))
    ensures
        r == (kdl_node_contents(*node).offset, kdl_node_contents(*node).length),
{
    (node.span().offset(), node.span().len())
}

/// The offset and length of a node's type annotation (`KdlNode::ty`).
#[verifier::external_body]
fn kdl_node_annotation(node: &kdl::KdlNode) -> (r: Option<(usize, usize)>)
    ensures
        r == kdl_node_contents(*node).annotation,
{
    node.ty().map(|t| (t.span().offset(), t.span().len()))
}

/// The children of a node (`KdlNode::children` and `KdlDocument::nodes`).
#[verifier::external_body]
fn kdl_children(node: &kdl::KdlNode) -> (r: Option<&[kdl::KdlNode]>)
    ensures
        r is Some <==> kdl_node_contents(*node).children is Some,
        r is Some ==> r->0@.len() == kdl_node_contents(*node).children->0.len(),
        r is Some ==> forall|i: int|
            0 <= i < r->0@.len() ==> kdl_node_contents(#[trigger] r->0@[i]) == kdl_node_contents(
                *node,
            ).children->0[i],
{
    node.children().map(|c| c.nodes())
}

/// The number of entries of a node (`KdlNode::entries`).
#[verifier::external_body]
fn kdl_entry_count(node: &kdl::KdlNode) -> (r: usize)
    ensures
        r == kdl_node_contents(*node).entries.len(),
{
    node.entries().len()
}

/// The name, offset, length and type-annotation span of entry `index`
/// (`KdlEntry::name`, `span` and `ty`).
#[verifier::external_body]
fn kdl_entry_shape(node: &kdl::KdlNode, index: usize) -> (r: Option<(Option<String>, usize, usize, Option<(usize, usize)>)>)
    ensures
        r is Some <==> index < kdl_node_contents(*node).entries.len(),
        r is Some ==> entry_shape_is(r->0, kdl_node_contents(*node).entries[index as int]),
{
    node.entries().get(index).map(
        |e| (e.name().map(|n| n.value().to_owned()), e.span().offset(), e.span().len(), e.ty().map(|t| (t.span().offset(), t.span().len()))),
    )
}

/// The value of entry `index` (a `match` on `kdl::KdlValue`; a float by
/// its bit pattern).
#[verifier::external_body]
fn kdl_entry_value(node: &kdl::KdlNode, index: usize) -> (r: Option<RawScalar>)
    ensures
        r is Some <==> index < kdl_node_contents(*node).entries.len(),
        r is Some ==> raw_scalar_view(r->0) == kdl_node_contents(*node).entries[index as int].value,
{
    match node.entries().get(index).map(|e| e.value()) {
        Some(kdl::KdlValue::String(s)) => Some(RawScalar::String(s.clone())),
        Some(kdl::KdlValue::Integer(i)) => Some(RawScalar::Integer(*i)),
        Some(kdl::KdlValue::Float(x)) => Some(RawScalar::Float(x.to_bits())),
        Some(kdl::KdlValue::Bool(b)) => Some(RawScalar::Bool(*b)),
        Some(kdl::KdlValue::Null) => Some(RawScalar::Null),
        None => None,
    }
}

/// `span` covers `length` characters from `offset` in `source`.
pub open spec fn span_at(span: Span, source: SourceId, offset: usize, length: usize) -> bool {
    &&& span.wf()
    &&& span.src() == source
    &&& span.lo() == offset
    &&& span.hi() == offset + length
}

/// A stretch that ends within the address space.
pub open spec fn fits(offset: usize, length: usize) -> bool {
    offset + length <= usize::MAX
}

/// `a` is the span of the optional stretch `raw` in `source`.
pub open spec fn annotation_at(a: Option<Span>, source: SourceId, raw: Option<(usize, usize)>) -> bool {
    match (a, raw) {
        (Some(s), Some((o, l))) => span_at(s, source, o, l),
        (None, None) => true,
        _ => false,
    }
}

/// The optional stretch ends within the address space.
pub open spec fn annotation_fits(raw: Option<(usize, usize)>) -> bool {
    raw matches Some((o, l)) ==> fits(o, l)
}

/// An entry can be held: its stretches fit.
pub open spec fn entry_converts(entry: RawEntry) -> bool {
    &&& fits(entry.offset, entry.length)
    &&& annotation_fits(entry.annotation)
}

/// `v` is the value `raw` holds; an integer by its binary64 bit pattern.
pub open spec fn scalar_is(v: KdlScalar, raw: RawValue) -> bool {
    match (v, raw) {
        (KdlScalar::String(s), RawValue::String(t)) => s@ == t,
        (KdlScalar::Integer(b), RawValue::Integer(n)) => b == binary64_bits(n as int),
        (KdlScalar::Float(b), RawValue::Float(c)) => b == c,
        (KdlScalar::Bool(b), RawValue::Bool(c)) => b == c,
        (KdlScalar::Null, RawValue::Null) => true,
        _ => false,
    }
}

/// `e` is the library's view of `raw`, with spans in `source`.
pub open spec fn entry_is(e: KdlEntryData, raw: RawEntry, source: SourceId) -> bool {
    &&& (match (e.name, raw.name) {
        (Some(a), Some(b)) => a@ == b,
        (None, None) => true,
        _ => false,
    })
    &&& span_at(e.span, source, raw.offset, raw.length)
    &&& annotation_at(e.annotation, source, raw.annotation)
    &&& scalar_is(e.value, raw.value)
}

/// A node can be held within `depth` levels: every stretch of it and of its
/// descendants fits, every integer is a number, and its children nest less
/// deep than `depth`.
pub open spec fn node_converts(raw: RawNode, depth: nat) -> bool
    decreases raw, depth,
{
    &&& depth > 0
    &&& fits(raw.name_offset, raw.name_length)
    &&& fits(raw.offset, raw.length)
    &&& annotation_fits(raw.annotation)
    &&& forall|i: int| 0 <= i < raw.entries.len() ==> entry_converts(#[trigger] raw.entries[i])
    &&& raw.children matches Some(c) ==> forall|i: int|
        0 <= i < c.len() ==> node_converts(#[trigger] c[i], (depth - 1) as nat)
}

/// `t` is the library's view of `raw`, with spans in `source`.
pub open spec fn node_is(t: KdlNodeData, raw: RawNode, source: SourceId) -> bool
    decreases raw,
{
    &&& t.name@ == raw.name
    &&& span_at(t.name_span, source, raw.name_offset, raw.name_length)
    &&& span_at(t.span, source, raw.offset, raw.length)
    &&& annotation_at(t.annotation, source, raw.annotation)
    &&& t.entries@.len() == raw.entries.len()
    &&& forall|i: int| 0 <= i < raw.entries.len() ==> entry_is(#[trigger] t.entries@[i], raw.entries[i], source)
    &&& match (t.children, raw.children) {
        (Some(tc), Some(rc)) => tc@.len() == rc.len() && forall|i: int|
            0 <= i < rc.len() ==> node_is(#[trigger] tc@[i], rc[i], source),
        (None, None) => true,
        _ => false,
    }
}

/// `nodes` are the library's view of `raw`, node by node.
pub open spec fn nodes_are(nodes: Seq<KdlNodeData>, raw: Seq<RawNode>, source: SourceId) -> bool {
    &&& nodes.len() == raw.len()
    &&& forall|i: int| 0 <= i < raw.len() ==> node_is(#[trigger] nodes[i], raw[i], source)
}

/// How deep the nodes of a text with `n` characters are read.
pub open spec fn read_depth(n: nat) -> nat {
    if n < usize::MAX {
        n + 1
    } else {
        n
    }
}

/// The span of `length` characters from `offset` in `source`; `None` when
/// its end lies past the address space.
fn checked_span(source: SourceId, offset: usize, length: usize) -> (r: Option<Span>)
    ensures
        r is Some <==> offset + length <= usize::MAX,
        r matches Some(s) ==> s.wf() && s.src() == source && s.lo() == offset && s.hi() == offset + length,
{
    match offset.checked_add(length) {
        Some(end) => Some(Span::ordered(source, offset, end)),
        None => None,
    }
}

/// Every span of the entry lies in `source`.
pub open spec fn entry_in(entry: KdlEntryData, source: SourceId) -> bool {
    &&& entry.span.src() == source
    &&& entry.annotation matches Some(a) ==> a.src() == source
}

/// Every span of `node`, of its entries and of its descendants, down to
/// `depth` levels, lies in `source`.
pub open spec fn spans_in(node: KdlNodeData, source: SourceId, depth: nat) -> bool
    decreases depth,
{
    depth > 0 ==> {
        &&& node.name_span.src() == source
        &&& node.span.src() == source
        &&& node.annotation matches Some(a) ==> a.src() == source
        &&& forall|i: int| 0 <= i < node.entries@.len() ==> entry_in(#[trigger] node.entries@[i], source)
        &&& forall|i: int|
            0 <= i < child_nodes(node).len() ==> spans_in(
                #[trigger] child_nodes(node)[i],
                source,
                (depth - 1) as nat,
            )
    }
}

proof fn lemma_spans_in_shallower(node: KdlNodeData, source: SourceId, depth: nat, shallower: nat)
    requires
        spans_in(node, source, depth),
        shallower <= depth,
    ensures
        spans_in(node, source, shallower),
    decreases shallower,
{
    if shallower > 0 {
        assert forall|i: int| 0 <= i < child_nodes(node).len() implies spans_in(
            #[trigger] child_nodes(node)[i],
            source,
            (shallower - 1) as nat,
        ) by {
            lemma_spans_in_shallower(child_nodes(node)[i], source, (depth - 1) as nat, (shallower - 1) as nat);
        }
    }
}

/// Builds the library's view of a parsed node, at most `depth` levels deep.
#[verifier::spinoff_prover]
#[verifier::rlimit(40)]
fn kdl_tree(node: &kdl::KdlNode, source: SourceId, depth: usize) -> (r: Option<KdlNodeData>)
    ensures
        r is Some <==> node_converts(kdl_node_contents(*node), depth as nat),
        r matches Some(t) ==> node_is(t, kdl_node_contents(*node), source) && spans_in(t, source, depth as nat),
    decreases depth,
{
    let ghost raw = kdl_node_contents(*node);
    if depth == 0 {
        return None;
    }
    let (name, name_offset, name_length) = kdl_node_name(node);
    let name_span = match checked_span(source, name_offset, name_length) {
        Some(s) => s,
        None => {
            return None;
        },
    };
    let (offset, length) = kdl_node_span(node);
    let span = match checked_span(source, offset, length) {
        Some(s) => s,
        None => {
            return None;
        },
    };
    let annotation = match kdl_node_annotation(node) {
        Some((o, l)) => match checked_span(source, o, l) {
            Some(s) => Some(s),
            None => {
                return None;
            },
        },
        None => None,
    };
    let mut entries: Vec<KdlEntryData> = Vec::new();
    let count = kdl_entry_count(node);
    let mut i: usize = 0;
    while i < count
        invariant
            raw == kdl_node_contents(*node),
            count == raw.entries.len(),
            i <= count,
            entries@.len() == i,
            forall|k: int| 0 <= k < entries@.len() ==> entry_in(#[trigger] entries@[k], source),
            forall|k: int| 0 <= k < i ==> entry_is(#[trigger] entries@[k], raw.entries[k], source),
            forall|k: int| 0 <= k < i ==> entry_converts(#[trigger] raw.entries[k]),
        decreases count - i,
    {
        let ghost entry = raw.entries[i as int];
        let (entry_name, o, l, entry_annotation) = match kdl_entry_shape(node, i) {
            Some(shape) => shape,
            None => {
                return None;
            },
        };
        let entry_span = match checked_span(source, o, l) {
            Some(s) => s,
            None => {
                proof {
                    assert(!entry_converts(raw.entries[i as int]));
                }
                return None;
            },
        };
        let entry_annotation = match entry_annotation {
            Some((ao, al)) => match checked_span(source, ao, al) {
                Some(s) => Some(s),
                None => {
                    proof {
                        assert(!entry_converts(raw.entries[i as int]));
                    }
                    return None;
                },
            },
            None => None,
        };
        let raw_value = match kdl_entry_value(node, i) {
            Some(v) => v,
            None => {
                return None;
            },
        };
        let value = match raw_value {
            RawScalar::String(s) => KdlScalar::String(s),
            RawScalar::Integer(n) => KdlScalar::Integer(binary64_of(n)),
            RawScalar::Float(bits) => KdlScalar::Float(bits),
            RawScalar::Bool(b) => KdlScalar::Bool(b),
            RawScalar::Null => KdlScalar::Null,
        };
        let data = KdlEntryData { name: entry_name, value, span: entry_span, annotation: entry_annotation };
        proof {
            assert(entry_is(data, entry, source));
            assert(entry_converts(entry));
        }
        entries.push(data);
        i = i + 1;
    }
    let children = match kdl_children(node) {
        Some(nodes) => {
            let ghost rc = raw.children->0;
            let mut converted: Vec<KdlNodeData> = Vec::new();
            let mut k: usize = 0;
            while k < nodes.len()
                invariant
                    raw == kdl_node_contents(*node),
                    raw.children is Some,
                    rc == raw.children->0,
                    nodes@.len() == rc.len(),
                    forall|j: int| 0 <= j < nodes@.len() ==> kdl_node_contents(#[trigger] nodes@[j]) == rc[j],
                    k <= nodes@.len(),
                    converted@.len() == k,
                    depth > 0,
                    forall|j: int| 0 <= j < converted@.len() ==> spans_in(#[trigger] converted@[j], source, (depth - 1) as nat),
                    forall|j: int| 0 <= j < k ==> node_is(#[trigger] converted@[j], rc[j], source),
                    forall|j: int| 0 <= j < k ==> node_converts(#[trigger] rc[j], (depth - 1) as nat),
                decreases nodes@.len() - k,
            {
                match kdl_tree(&nodes[k], source, depth - 1) {
                    Some(t) => {
                        converted.push(t);
                    },
                    None => {
                        proof {
                            assert(!node_converts(rc[k as int], (depth - 1) as nat));
                            if node_converts(raw, depth as nat) {
                                assert(node_converts(rc[k as int], (depth - 1) as nat));
                            }
                        }
                        return None;
                    },
                }
                k = k + 1;
            }
            Some(converted)
        },
        None => None,
    };
    let t = KdlNodeData { name, name_span, span, annotation, entries, children };
    proof {
        assert(node_converts(raw, depth as nat));
        assert(node_is(t, raw, source));
    }
    Some(t)
}

/// Every node of `raw` can be held within `depth` levels.
pub open spec fn all_convert(raw: Seq<RawNode>, depth: nat) -> bool {
    forall|k: int| 0 <= k < raw.len() ==> node_converts(#[trigger] raw[k], depth)
}

/// What parsing KDL `text` gives: for text that is not KDL 2, its syntax
/// failure; for a document of which some node cannot be held (deeper than
/// the text is long, or with a position past the address space), a structure
/// error of the document; otherwise the conversion of the library's view of
/// its nodes (see [`nodes_outcome`]).
pub open spec fn parse_outcome(
    file_name: Seq<char>,
    source: SourceId,
    text: Seq<char>,
    r: Result<StyleDocument, ParseErrors>,
) -> bool {
    match kdl_document(text) {
        Err(ds) => match r {
            Err(e) => e.items().len() == 1 && match e.items()[0] {
                ParseError::Syntax(s) => s.file_of() == file_name && s.diagnostics_of().len() == ds.len()
                    && forall|i: int|
                    0 <= i < ds.len() ==> #[trigger] diagnostic_from(s.diagnostics_of()[i], ds[i]),
                _ => false,
            },
            Ok(_) => false,
        },
        Ok(raw) => if all_convert(raw, read_depth(text.len())) {
            exists|nodes: Seq<KdlNodeData>| nodes_are(nodes, raw, source) && #[trigger] nodes_outcome(source, nodes, r)
        } else {
            fails_with(r, Problem { context: "document"@, message: "document cannot be represented"@, span: None })
        },
    }
}

/// `d` is the parser diagnostic `t`: its bytes run from the span's offset
/// for the span's length (to the end of the address space where that sum
/// overflows), with the same message.
pub open spec fn diagnostic_from(d: SyntaxDiagnostic, t: (usize, usize, Option<Seq<char>>)) -> bool {
    &&& d.start == t.0
    &&& d.end == if t.0 + t.1 <= usize::MAX { (t.0 + t.1) as usize } else { usize::MAX }
    &&& match (d.message, t.2) {
        (Some(m), Some(n)) => m@ == n,
        (None, None) => true,
        _ => false,
    }
}

/// A parsed document carries the source identity it was parsed under.
pub proof fn lemma_parsed_source(file_name: Seq<char>, source: SourceId, text: Seq<char>, doc: StyleDocument)
    requires
        parse_outcome(file_name, source, text, Ok(doc)),
    ensures
        doc.source_of() == source,
{
    let r = Ok::<StyleDocument, ParseErrors>(doc);
    let nodes = choose|nodes: Seq<KdlNodeData>| nodes_are(nodes, kdl_document(text)->Ok_0, source) && #[trigger] nodes_outcome(source, nodes, r);
    assert(nodes_outcome(source, nodes, r));
}

/// Parses one component-style KDL 2 source.
pub fn parse(file_name: &str, source: SourceId, input: &str) -> (r: Result<StyleDocument, ParseErrors>)
    ensures
        parse_outcome(file_name@, source, input@, r),
{
    match kdl_parse(input) {
        Err(found) => {
            let ghost ds = found@.map_values(|d: (usize, usize, Option<String>)| diagnostic_view(d));
            let mut diagnostics: Vec<SyntaxDiagnostic> = Vec::new();
            let mut i: usize = 0;
            while i < found.len()
                invariant
                    i <= found@.len(),
                    ds == found@.map_values(|d: (usize, usize, Option<String>)| diagnostic_view(d)),
                    diagnostics@.len() == i,
                    forall|k: int| 0 <= k < i ==> #[trigger] diagnostic_from(diagnostics@[k], ds[k]),
                decreases found@.len() - i,
            {
                let offset = found[i].0;
                let length = found[i].1;
                let message = match &found[i].2 {
                    Some(m) => Some(m.clone()),
                    None => None,
                };
                let end = match offset.checked_add(length) {
                    Some(end) => end,
                    None => usize::MAX,
                };
                diagnostics.push(SyntaxDiagnostic { start: offset, end, message });
                i = i + 1;
            }
            Err(Errors::one(ParseError::Syntax(SyntaxError::new(owned(file_name), diagnostics))))
        },
        Ok(document) => match document_tree(&document, source, input.unicode_len()) {
            Some(tree) => {
                let r = parse_nodes(source, tree.as_slice());
                assert(nodes_outcome(source, tree@, r));
                r
            },
            None => {
                let e = StructureError::new(owned("document"), owned("document cannot be represented"));
                Err(Errors::one(ParseError::Structure(e)))
            },
        },
    }
}

/// The library's view of the top-level nodes of a parsed document whose
/// text has `n` characters, or `None` when some node cannot be represented.
fn document_tree(document: &kdl::KdlDocument, source: SourceId, n: usize) -> (r: Option<Vec<KdlNodeData>>)
    ensures
        r is Some <==> all_convert(kdl_document_nodes(*document), read_depth(n as nat)),
        r matches Some(nodes) ==> nodes_are(nodes@, kdl_document_nodes(*document), source),
        r matches Some(nodes) ==> forall|k: int| 0 <= k < nodes@.len() ==> spans_in(#[trigger] nodes@[k], source, n as nat),
{
    let ghost raw = kdl_document_nodes(*document);
    let nodes = kdl_nodes(document);
    let depth = if n < usize::MAX {
        n + 1
    } else {
        n
    };
    let mut tree: Vec<KdlNodeData> = Vec::new();
    let mut k: usize = 0;
    while k < nodes.len()
        invariant
            raw == kdl_document_nodes(*document),
            nodes@.len() == raw.len(),
            forall|j: int| 0 <= j < nodes@.len() ==> kdl_node_contents(#[trigger] nodes@[j]) == raw[j],
            depth == read_depth(n as nat),
            k <= nodes@.len(),
            tree@.len() == k,
            n <= depth,
            forall|j: int| 0 <= j < tree@.len() ==> spans_in(#[trigger] tree@[j], source, n as nat),
            forall|j: int| 0 <= j < k ==> node_is(#[trigger] tree@[j], raw[j], source),
            forall|j: int| 0 <= j < k ==> node_converts(#[trigger] raw[j], depth as nat),
        decreases nodes@.len() - k,
    {
        match kdl_tree(&nodes[k], source, depth) {
            Some(t) => {
                proof {
                    lemma_spans_in_shallower(t, source, depth as nat, n as nat);
                }
                tree.push(t)
            },
            None => {
                proof {
                    assert(!node_converts(raw[k as int], depth as nat));
                }
                return None;
            },
        }
        k = k + 1;
    }
    Some(tree)
}

/// Reads KDL 2 text into the library's view of its top-level nodes, with
/// spans in `source`: `None` when the text is not KDL 2 (see
/// [`kdl_document`]) or some node cannot be held.
pub fn read_nodes(source: SourceId, input: &str) -> (r: Option<Vec<KdlNodeData>>)
    ensures
        r is Some <==> kdl_document(input@) is Ok && all_convert(
            kdl_document(input@)->Ok_0,
            read_depth(input@.len()),
        ),
        r matches Some(nodes) ==> nodes_are(nodes@, kdl_document(input@)->Ok_0, source),
        r matches Some(nodes) ==> forall|k: int| 0 <= k < nodes@.len() ==> spans_in(#[trigger] nodes@[k], source, input@.len()),
{
    match kdl_parse(input) {
        Err(_) => None,
        Ok(document) => document_tree(&document, source, input.unicode_len()),
    }
}

} // verus!
