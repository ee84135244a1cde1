//! Typed design tokens, token documents, and resolved token registries.
use crate::primitives::{Color, Dimension, Number};
use crate::source::SourceId;
use crate::text::segs_less;
use crate::token_path::TokenPath;
use vstd::prelude::*;

verus! {

/// Token types supported by the JSON contract.
#[derive(Clone, Copy, Debug, PartialEq, Eq)]
pub enum TokenKind {
    /// Boolean value.
    Boolean,
    /// sRGB color value.
    Color,
    /// Pixel or rem dimension.
    Dimension,
    /// Unitless finite number.
    Number,
    /// UTF-8 string.
    String,
}

impl TokenKind {
    /// The variant name, as `Debug` prints it.
    pub open spec fn name_text(self) -> Seq<char> {
        match self {
            TokenKind::Boolean => "Boolean"@,
            TokenKind::Color => "Color"@,
            TokenKind::Dimension => "Dimension"@,
            TokenKind::Number => "Number"@,
            TokenKind::String => "String"@,
        }
    }

    /// Returns the variant name.
    pub fn name(self) -> (r: &'static str)
        ensures
            r@ == self.name_text(),
    {
        match self {
            TokenKind::Boolean => "Boolean",
            TokenKind::Color => "Color",
            TokenKind::Dimension => "Dimension",
            TokenKind::Number => "Number",
            TokenKind::String => "String",
        }
    }

    /// Whether two kinds are the same.
    pub fn same(self, other: TokenKind) -> (r: bool)
        ensures
            r == (self == other),
    {
        match (self, other) {
            (TokenKind::Boolean, TokenKind::Boolean) => true,
            (TokenKind::Color, TokenKind::Color) => true,
            (TokenKind::Dimension, TokenKind::Dimension) => true,
            (TokenKind::Number, TokenKind::Number) => true,
            (TokenKind::String, TokenKind::String) => true,
            _ => false,
        }
    }
}

/// A typed literal token value.
#[derive(Clone, Debug, PartialEq, Eq)]
pub enum TokenValue {
    /// Boolean literal.
    Boolean(bool),
    /// sRGB color literal.
    Color(Color),
    /// Dimension literal.
    Dimension(Dimension),
    /// Unitless number literal.
    Number(Number),
    /// String literal.
    String(String),
}

/// The type of a literal.
pub open spec fn value_kind(v: TokenValue) -> TokenKind {
    match v {
        TokenValue::Boolean(_) => TokenKind::Boolean,
        TokenValue::Color(_) => TokenKind::Color,
        TokenValue::Dimension(_) => TokenKind::Dimension,
        TokenValue::Number(_) => TokenKind::Number,
        TokenValue::String(_) => TokenKind::String,
    }
}

impl TokenValue {
    /// Returns the type of this literal.
    pub fn kind(&self) -> (r: TokenKind)
        ensures
            r == value_kind(*self),
    {
        match self {
            TokenValue::Boolean(_) => TokenKind::Boolean,
            TokenValue::Color(_) => TokenKind::Color,
            TokenValue::Dimension(_) => TokenKind::Dimension,
            TokenValue::Number(_) => TokenKind::Number,
            TokenValue::String(_) => TokenKind::String,
        }
    }

    /// Copies the value.
    pub fn duplicate(&self) -> (r: TokenValue)
        ensures
            r == *self,
    {
        match self {
            TokenValue::Boolean(b) => TokenValue::Boolean(*b),
            TokenValue::Color(c) => TokenValue::Color(*c),
            TokenValue::Dimension(d) => TokenValue::Dimension(*d),
            TokenValue::Number(n) => TokenValue::Number(*n),
            TokenValue::String(s) => TokenValue::String(s.clone()),
        }
    }
}

/// Unresolved token value from a source document.
#[derive(Debug, PartialEq, Eq)]
pub enum TokenExpression {
    /// A typed literal.
    Literal(TokenValue),
    /// Reference to another token path.
    Alias(TokenPath),
}

impl TokenExpression {
    /// Copies the expression.
    pub fn duplicate(&self) -> (r: TokenExpression)
        ensures
            r.same_as(*self),
    {
        match self {
            TokenExpression::Literal(v) => TokenExpression::Literal(v.duplicate()),
            TokenExpression::Alias(p) => TokenExpression::Alias(p.duplicate()),
        }
    }

    /// Equality up to the views of alias paths.
    pub open spec fn same_as(self, other: TokenExpression) -> bool {
        match (self, other) {
            (TokenExpression::Literal(a), TokenExpression::Literal(b)) => a == b,
            (TokenExpression::Alias(a), TokenExpression::Alias(b)) => a@ == b@,
            _ => false,
        }
    }
}

impl Clone for TokenExpression {
    fn clone(&self) -> (r: Self)
        ensures
            r.same_as(*self),
    {
        self.duplicate()
    }
}

/// One typed token declaration.
#[derive(Debug, PartialEq, Eq)]
pub struct TokenDefinition {
    path: TokenPath,
    kind: TokenKind,
    expression: TokenExpression,
}

/// Error returned when a literal does not match its declared token type.
#[derive(Clone, Copy, Debug, PartialEq, Eq)]
pub struct InvalidTokenDefinition {
    declared: TokenKind,
    actual: TokenKind,
}

impl InvalidTokenDefinition {
    pub closed spec fn declared_kind(self) -> TokenKind {
        self.declared
    }

    pub closed spec fn actual_kind(self) -> TokenKind {
        self.actual
    }

    /// Renders the error message.
    pub fn to_string(&self) -> (r: String)
        ensures
            r@ == "declared token type "@ + self.declared_kind().name_text()
                + " does not match literal type "@ + self.actual_kind().name_text(),
    {
        let mut r = String::from_str("declared token type ");
        r.append(self.declared.name());
        r.append(" does not match literal type ");
        r.append(self.actual.name());
        r
    }
}

/// Whether a declaration is consistent: a literal has the declared type.
pub open spec fn consistent(kind: TokenKind, expression: TokenExpression) -> bool {
    match expression {
        TokenExpression::Literal(v) => value_kind(v) == kind,
        TokenExpression::Alias(_) => true,
    }
}

impl TokenDefinition {
    #[verifier::type_invariant]
    closed spec fn inv(self) -> bool {
        consistent(self.kind, self.expression)
    }

    pub closed spec fn path_of(self) -> TokenPath {
        self.path
    }

    pub closed spec fn kind_of(self) -> TokenKind {
        self.kind
    }

    pub closed spec fn expression_of(self) -> TokenExpression {
        self.expression
    }

    /// Creates a declaration while enforcing literal type consistency.
    pub fn new(path: TokenPath, kind: TokenKind, expression: TokenExpression) -> (r: Result<
        TokenDefinition,
        InvalidTokenDefinition,
    >)
        ensures
            r is Ok <==> consistent(kind, expression),
            r matches Ok(d) ==> d.path_of() == path && d.kind_of() == kind && d.expression_of()
                == expression,
            r matches Err(e) ==> e.declared_kind() == kind && (
            expression matches TokenExpression::Literal(v) && e.actual_kind() == value_kind(v)),
    {
        if let TokenExpression::Literal(value) = &expression {
            let actual = value.kind();
            if !actual.same(kind) {
                return Err(InvalidTokenDefinition { declared: kind, actual });
            }
        }
        Ok(TokenDefinition { path, kind, expression })
    }

    /// Returns the token path.
    pub fn path(&self) -> (r: &TokenPath)
        ensures
            *r == self.path_of(),
    {
        &self.path
    }

    /// Returns the declared token type.
    pub fn kind(&self) -> (r: TokenKind)
        ensures
            r == self.kind_of(),
    {
        self.kind
    }

    /// Returns the unresolved token expression.
    pub fn expression(&self) -> (r: &TokenExpression)
        ensures
            *r == self.expression_of(),
    {
        &self.expression
    }

    /// Every declaration is consistent.
    pub fn check_valid(&self)
        ensures
            consistent(self.kind_of(), self.expression_of()),
    {
        proof {
            use_type_invariant(self);
        }
    }

    /// Copies the declaration.
    pub fn duplicate(&self) -> (r: TokenDefinition)
        ensures
            r.path_of()@ == self.path_of()@,
            r.kind_of() == self.kind_of(),
            r.expression_of().same_as(self.expression_of()),
    {
        proof {
            use_type_invariant(self);
        }
        TokenDefinition {
            path: self.path.duplicate(),
            kind: self.kind,
            expression: self.expression.duplicate(),
        }
    }
}

impl Clone for TokenDefinition {
    fn clone(&self) -> (r: Self)
        ensures
            r.path_of()@ == self.path_of()@,
    {
        self.duplicate()
    }
}

/// Declarations ordered by path, equal paths allowed.
pub open spec fn sorted_by_path(defs: Seq<TokenDefinition>) -> bool {
    forall|i: int, j: int|
        0 <= i < j < defs.len() ==> !segs_less(#[trigger] defs[j].path_of()@, #[trigger] defs[i].path_of()@)
}

/// Tokens decoded from one JSON source.
#[derive(Debug, PartialEq, Eq)]
pub struct TokenDocument {
    source: SourceId,
    tokens: Vec<TokenDefinition>,
}

impl TokenDocument {
    pub closed spec fn source_of(self) -> SourceId {
        self.source
    }

    pub closed spec fn tokens_of(self) -> Seq<TokenDefinition> {
        self.tokens@
    }

    /// Creates a document whose tokens are put in canonical token-path order.
    ///
    /// The order is stable: declarations with equal paths keep their order.
    pub fn new(source: SourceId, tokens: Vec<TokenDefinition>) -> (r: TokenDocument)
        ensures
            r.source_of() == source,
            sorted_by_path(r.tokens_of()),
            r.tokens_of().to_multiset() == tokens@.to_multiset(),
    {
        let mut sorted: Vec<TokenDefinition> = Vec::new();
        let count = tokens.len();
        let mut rest = tokens;
        let ghost initial = rest@;
        let mut taken: usize = 0;
        broadcast use vstd::multiset::group_multiset_axioms;
        assert(initial.subrange(0, 0) =~= sorted@);
        while rest.len() > 0
            invariant
                initial.len() <= usize::MAX,
                taken + rest@.len() == initial.len(),
                rest@ == initial.subrange(taken as int, initial.len() as int),
                sorted_by_path(sorted@),
                sorted@.to_multiset() == initial.subrange(0, taken as int).to_multiset(),
            decreases rest@.len(),
        {
            let next = rest.remove(0);
            let mut position = sorted.len();
            let mut k: usize = 0;
            while k < sorted.len() && !next.path().less(sorted[k].path())
                invariant
                    k <= sorted@.len(),
                    position == sorted@.len(),
                    forall|j: int| 0 <= j < k ==> !segs_less(next.path_of()@, #[trigger] sorted@[j].path_of()@),
                decreases sorted@.len() - k,
            {
                k = k + 1;
            }
            let ghost before = sorted@;
            proof {
                assert forall|i: int, j: int| k <= i < j < before.len() implies !segs_less(
                    #[trigger] before[j].path_of()@,
                    #[trigger] before[i].path_of()@,
                ) by {}
                if k < before.len() {
                    assert(segs_less(next.path_of()@, before[k as int].path_of()@));
                    assert forall|j: int| k <= j < before.len() implies !segs_less(
                        #[trigger] before[j].path_of()@,
                        next.path_of()@,
                    ) by {
                        if segs_less(before[j].path_of()@, next.path_of()@) {
                            if j > k {
                                crate::text::lemma_segs_less_total(
                                    before[k as int].path_of()@,
                                    before[j].path_of()@,
                                );
                                if segs_less(before[k as int].path_of()@, before[j].path_of()@) {
                                } else if before[k as int].path_of()@ == before[j].path_of()@ {
                                    crate::text::lemma_segs_less_asymmetric(
                                        next.path_of()@,
                                        before[k as int].path_of()@,
                                    );
                                }
                                crate::text::lemma_segs_less_transitive(
                                    before[j].path_of()@,
                                    next.path_of()@,
                                    before[k as int].path_of()@,
                                );
                            }
                            crate::text::lemma_segs_less_asymmetric(
                                next.path_of()@,
                                before[k as int].path_of()@,
                            );
                        }
                    }
                }
            }
            sorted.insert(k, next);
            proof {
                assert(initial.subrange(0, taken + 1) =~= initial.subrange(0, taken as int).push(
                    next,
                ));
                assert(sorted@ =~= before.insert(k as int, next));
                before.insert_ensures(k as int, next);
                broadcast use vstd::seq_lib::group_to_multiset_ensures;
                assert(sorted@.remove(k as int) =~= before);
                assert(sorted@[k as int] == next);
                assert(sorted@.contains(next));
                assert(sorted@.to_multiset() =~= before.to_multiset().insert(next));
            }
            taken = taken + 1;
        }
        assert(initial.subrange(0, initial.len() as int) =~= initial);
        TokenDocument { source, tokens: sorted }
    }

    /// Returns the source identity.
    pub fn source(&self) -> (r: SourceId)
        ensures
            r == self.source_of(),
    {
        self.source
    }

    /// Returns declarations in canonical token-path order.
    pub fn tokens(&self) -> (r: &[TokenDefinition])
        ensures
            r@ == self.tokens_of(),
    {
        self.tokens.as_slice()
    }
}

} // verus!
