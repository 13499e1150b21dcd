//! The token model: what a unit of code is, and its mathematical view.

use vstd::prelude::*;

verus! {

/// Which argument positions a parameter captures, by reverse index: index 0 is
/// the argument nearest the call, larger indices lie further to the left.
#[derive(Clone, Copy, Debug, PartialEq, Eq, Structural)]
pub enum Range {
    /// The reverse indices `start..=end`; empty when `start > end`.
    Full(usize, usize),
    /// Every reverse index from the given one out to the far end.
    From(usize),
    /// Every reverse index from the near end up to and including the given one.
    To(usize),
}

/// What a call token invokes.
#[derive(Debug, PartialEq, Eq)]
pub enum WFuncVariant {
    /// A built-in function, by name.
    Function(String),
    /// A user-defined container, by name.
    Container(String),
}

/// The view of a [`WFuncVariant`]: its name as a sequence of characters.
pub enum FuncView {
    Function(Seq<char>),
    Container(Seq<char>),
}

/// One unit of code.
#[derive(Debug, PartialEq, Eq)]
pub enum Token {
    /// A number, held as the bit pattern of an IEEE 754 double (what
    /// `f64::to_bits` gives).
    Value(u64),
    /// An explicitly delimited sub-expression.
    Group(Vec<Token>),
    /// A placeholder for arguments of the enclosing container call.
    Parameter(Range),
    /// A call of a function or of a container.
    Call(WFuncVariant),
    /// An opening parenthesis.
    Open,
    /// A closing parenthesis.
    Close,
}

/// The mathematical view of a [`Token`].
pub enum TokenView {
    Value(u64),
    Group(Seq<TokenView>),
    Parameter(Range),
    Call(FuncView),
    Open,
    Close,
}

/// A sequence of tokens.
pub type WTokens = Vec<Token>;

impl DeepView for WFuncVariant {
    type V = FuncView;

    open spec fn deep_view(&self) -> FuncView {
        match self {
            WFuncVariant::Function(name) => FuncView::Function(name@),
            WFuncVariant::Container(name) => FuncView::Container(name@),
        }
    }
}

/// The view of a token: a group's view holds the views of its contents.
pub open spec fn token_view(t: Token) -> TokenView
    decreases t,
{
    match t {
        Token::Value(bits) => TokenView::Value(bits),
        Token::Group(content) => TokenView::Group(
            Seq::new(
                content@.len(),
                |i: int|
                    if 0 <= i < content@.len() {
                        token_view(content@[i])
                    } else {
                        TokenView::Open
                    },
            ),
        ),
        Token::Parameter(range) => TokenView::Parameter(range),
        Token::Call(func) => TokenView::Call(func.deep_view()),
        Token::Open => TokenView::Open,
        Token::Close => TokenView::Close,
    }
}

impl DeepView for Token {
    type V = TokenView;

    open spec fn deep_view(&self) -> TokenView {
        token_view(*self)
    }
}

/// The view of a group is the group of the view of its contents.
pub proof fn lemma_group_view(content: Vec<Token>)
    ensures
        Token::Group(content).deep_view() == TokenView::Group(content.deep_view()),
{
    assert(Token::Group(content).deep_view()->Group_0 =~= content.deep_view());
}

impl Clone for WFuncVariant {
    fn clone(&self) -> (res: Self)
        ensures
            res.deep_view() == self.deep_view(),
    {
        match self {
            WFuncVariant::Function(name) => WFuncVariant::Function(name.clone()),
            WFuncVariant::Container(name) => WFuncVariant::Container(name.clone()),
        }
    }
}

impl Clone for Token {
    fn clone(&self) -> (res: Self)
        ensures
            res.deep_view() == self.deep_view(),
        decreases self,
    {
        match self {
            Token::Value(bits) => Token::Value(*bits),
            Token::Group(content) => {
                let mut copy: Vec<Token> = Vec::new();
                let mut i: usize = 0;
                while i < content.len()
                    invariant
                        i <= content.len(),
                        copy.len() == i,
                        forall|j: int| 0 <= j < i ==> copy[j].deep_view() == content[j].deep_view(),
                        *self == Token::Group(*content),
                    decreases content.len() - i,
                {
                    assert(decreases_to!(self => self->Group_0));
                    assert(decreases_to!(self->Group_0 => self->Group_0[i as int]));
                    copy.push(content[i].clone());
                    i += 1;
                }
                proof {
                    lemma_group_view(copy);
                    lemma_group_view(*content);
                    assert(copy.deep_view() =~= content.deep_view());
                }
                Token::Group(copy)
            },
            Token::Parameter(range) => Token::Parameter(*range),
            Token::Call(func) => Token::Call(func.clone()),
            Token::Open => Token::Open,
            Token::Close => Token::Close,
        }
    }
}

/// The bit pattern of the number one, the condition that always holds.
pub const TRUE_BITS: u64 = 0x3FF0_0000_0000_0000;

/// The bit pattern of negative zero.
pub const NEGATIVE_ZERO_BITS: u64 = 0x8000_0000_0000_0000;

/// Whether a bit pattern is that of zero, positive or negative.
pub open spec fn is_zero(bits: u64) -> bool {
    bits == 0 || bits == NEGATIVE_ZERO_BITS
}

/// The truth of an evaluated condition: it is false only where its first
/// token is the number zero. A condition that evaluates to nothing holds.
pub open spec fn truthy(tokens: Seq<TokenView>) -> bool {
    tokens.len() > 0 ==> match tokens[0] {
        TokenView::Value(bits) => !is_zero(bits),
        _ => true,
    }
}

/// Tells whether an evaluated condition holds.
pub fn is_truthy(tokens: &WTokens) -> (holds: bool)
    ensures
        holds == truthy(tokens.deep_view()),
{
    if tokens.len() == 0 {
        return true;
    }
    match &tokens[0] {
        Token::Value(bits) => !(*bits == 0 || *bits == NEGATIVE_ZERO_BITS),
        _ => true,
    }
}

/// A case of a container: a condition and the result that stands for the call
/// where the condition holds.
pub type WCase = (WTokens, WTokens);

/// The view of a [`WCase`].
pub type CaseView = (Seq<TokenView>, Seq<TokenView>);

/// One top-level unit of a program: the definition of a container where
/// `container` names one, a plain expression otherwise.
#[derive(Debug, PartialEq, Eq)]
pub struct WCode {
    pub container: Option<String>,
    pub cases: Option<Vec<WCase>>,
    pub default_case: WTokens,
}

/// The view of a [`WCode`].
pub struct SectionView {
    pub container: Option<Seq<char>>,
    pub cases: Option<Seq<CaseView>>,
    pub default_case: Seq<TokenView>,
}

impl DeepView for WCode {
    type V = SectionView;

    open spec fn deep_view(&self) -> SectionView {
        SectionView {
            container: match self.container {
                Some(name) => Some(name@),
                None => None,
            },
            cases: match self.cases {
                Some(cases) => Some(cases.deep_view()),
                None => None,
            },
            default_case: self.default_case.deep_view(),
        }
    }
}

/// Copies a token sequence.
pub fn clone_tokens(tokens: &WTokens) -> (copy: WTokens)
    ensures
        copy.deep_view() == tokens.deep_view(),
{
    let mut copy: WTokens = Vec::new();
    let mut i: usize = 0;
    while i < tokens.len()
        invariant
            i <= tokens.len(),
            copy.len() == i,
            forall|j: int| 0 <= j < i ==> copy[j].deep_view() == tokens[j].deep_view(),
        decreases tokens.len() - i,
    {
        copy.push(tokens[i].clone());
        i += 1;
    }
    assert(copy.deep_view() =~= tokens.deep_view());
    copy
}

} // verus!
