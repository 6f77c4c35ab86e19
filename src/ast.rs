//! The typed syntax tree, and its construction from the grammar engine's
//! generic parse tree.
use vstd::prelude::*;

use crate::errors::parse::FailurePosition;
use crate::text::{chars_of, string_of};

verus! {

/// Grammar rules that tag parse nodes.
#[allow(non_camel_case_types)]
#[derive(Debug, Clone, Copy, PartialEq, Eq, Structural)]
pub enum Rule {
    Circuit,
    COMMENT,
    END_OF_LINE,
    IncludeStatement,
    IncludeKW,
    IncludePathString,
    FilesystemPath,
    DeclarationStatement,
    ComponentDeclarationKW,
    VariableDeclarationKW,
    SignalDeclarationKW,
    TemplateBlock,
    TemplateKW,
    TemplateName,
    FunctionBlock,
    FunctionKW,
    FunctionName,
    Parameters,
    Body,
    Expression,
    E_VariableName,
    E_Decimal,
    E_Hexadecimal,
    E_Array,
    E_Brackets,
    E_0_CommaOperator,
    E_1_SignalAssertionConstraintOperator,
    E_2_SignalLeftHandOperator,
    E_3_SignalRightHandOperator,
    E_5_TernaryFirstOperator,
    E_6_LogicalOrOperator,
    E_7_LogicalAndOperator,
    E_8_BitwiseOrOperator,
    E_9_BitwiseXorOperator,
    E_10_BitwiseAndOperator,
    E_11_RelationalEqualityOperator,
    E_12_RelationalOrderingOperator,
    E_13_BitwiseShiftOperator,
    E_18_PostfixOperator,
    /// Any rule that the syntax-tree logic never inspects.
    Other,
}

/// A node of the grammar engine's parse tree: its rule, its span (character
/// offsets `start..end` into the parsed text) and its children, in order.
#[derive(Debug)]
pub struct ParseNode {
    pub rule: Rule,
    pub span: (usize, usize),
    pub children: Vec<ParseNode>,
}

/// Leaf of the syntax tree: a node without children and the text it covers.
#[derive(Debug)]
pub struct TerminalToken {
    pub span: (usize, usize),
    pub rule: Rule,
    pub content: String,
}

/// Inner node of the syntax tree.
#[derive(Debug)]
pub struct NonTerminalToken {
    pub span: (usize, usize),
    pub rule: Rule,
    pub subrules: Vec<Token>,
}

/// A node of the syntax tree.
#[derive(Debug)]
pub enum Token {
    Terminal(TerminalToken),
    NonTerminal(NonTerminalToken),
}

/// The parsed text and the top-level tokens produced for it.
#[derive(Debug)]
pub struct RootToken {
    pub source: String,
    pub ast: Vec<Token>,
}

/// Why a file could not be loaded: the system could not read it (with the
/// cause it gave), or the grammar engine rejected its text (where, and the
/// text itself).
#[derive(Debug)]
pub enum ParseError {
    IOError(String),
    PestError(FailurePosition, String),
}

/// One source file: its path, its syntax tree, and the paths it includes.
#[derive(Debug)]
pub struct File {
    pub path: String,
    pub root: RootToken,
    pub includes: Vec<String>,
}

impl Token {
    pub open spec fn spec_rule(self) -> Rule {
        match self {
            Token::Terminal(t) => t.rule,
            Token::NonTerminal(n) => n.rule,
        }
    }

    pub open spec fn spec_span(self) -> (usize, usize) {
        match self {
            Token::Terminal(t) => t.span,
            Token::NonTerminal(n) => n.span,
        }
    }

    /// The rule that tags this token.
    pub fn rule(&self) -> (r: Rule)
        ensures
            r == self.spec_rule(),
    {
        match self {
            Token::Terminal(t) => t.rule,
            Token::NonTerminal(n) => n.rule,
        }
    }

    /// The span of this token.
    pub fn span(&self) -> (r: (usize, usize))
        ensures
            r == self.spec_span(),
    {
        match self {
            Token::Terminal(t) => t.span,
            Token::NonTerminal(n) => n.span,
        }
    }
}

/// Every span in the tree of `n` is ordered and ends within a text of `len`
/// characters.
pub open spec fn node_in_bounds(n: ParseNode, len: nat) -> bool
    decreases n,
{
    &&& n.span.0 <= n.span.1 <= len
    &&& forall|i: int|
        0 <= i < n.children@.len() ==> node_in_bounds(#[trigger] n.children@[i], len)
}

/// What the grammar engine promises of a parse tree over a text of `len`
/// characters: spans in bounds, each child within its parent, and children in
/// order without overlap.
pub open spec fn node_wf(n: ParseNode, len: nat) -> bool
    decreases n,
{
    &&& n.span.0 <= n.span.1 <= len
    &&& forall|i: int|
        0 <= i < n.children@.len() ==> {
            &&& node_wf(#[trigger] n.children@[i], len)
            &&& n.span.0 <= n.children@[i].span.0
            &&& n.children@[i].span.1 <= n.span.1
        }
    &&& forall|i: int, j: int|
        #![trigger n.children@[i], n.children@[j]]
        0 <= i < j < n.children@.len() ==> n.children@[i].span.1 <= n.children@[j].span.0
}

/// `t` is the token made of parse node `n` over `source`: same rule and span;
/// a terminal holding the covered text when `n` has no children, else a
/// non-terminal whose children are made, in order, of those of `n`.
pub open spec fn materializes(t: Token, n: ParseNode, source: Seq<char>) -> bool
    decreases n,
{
    if n.children@.len() == 0 {
        &&& t is Terminal
        &&& t->Terminal_0.span == n.span
        &&& t->Terminal_0.rule == n.rule
        &&& t->Terminal_0.content@ == source.subrange(n.span.0 as int, n.span.1 as int)
    } else {
        &&& t is NonTerminal
        &&& t->NonTerminal_0.span == n.span
        &&& t->NonTerminal_0.rule == n.rule
        &&& t->NonTerminal_0.subrules@.len() == n.children@.len()
        &&& forall|i: int|
            0 <= i < n.children@.len() ==> materializes(
                t->NonTerminal_0.subrules@[i],
                #[trigger] n.children@[i],
                source,
            )
    }
}

/// The syntax-tree invariants over `source`: a terminal holds exactly the text
/// its span covers; the children of a non-terminal lie within its span and
/// come by ascending start offset.
pub open spec fn token_wf(t: Token, source: Seq<char>) -> bool
    decreases t,
{
    match t {
        Token::Terminal(term) => {
            &&& term.span.0 <= term.span.1 <= source.len()
            &&& term.content@ == source.subrange(term.span.0 as int, term.span.1 as int)
        },
        Token::NonTerminal(nt) => {
            &&& forall|i: int|
                0 <= i < nt.subrules@.len() ==> {
                    &&& token_wf(#[trigger] nt.subrules@[i], source)
                    &&& nt.span.0 <= nt.subrules@[i].spec_span().0
                    &&& nt.subrules@[i].spec_span().1 <= nt.span.1
                }
            &&& forall|i: int, j: int|
                #![trigger nt.subrules@[i], nt.subrules@[j]]
                0 <= i < j < nt.subrules@.len() ==> nt.subrules@[i].spec_span().0
                    <= nt.subrules@[j].spec_span().0
        },
    }
}

/// Tokens made of a parse tree that the grammar engine produced keep its
/// invariants: every terminal's content is the text between its span's
/// offsets, and every non-terminal's children lie within it, by ascending start.
pub proof fn lemma_materialized_token_wf(t: Token, n: ParseNode, source: Seq<char>)
    requires
        node_wf(n, source.len()),
        materializes(t, n, source),
    ensures
        token_wf(t, source),
    decreases n,
{
    if n.children@.len() > 0 {
        let nt = t->NonTerminal_0;
        assert forall|i: int| 0 <= i < nt.subrules@.len() implies {
            &&& token_wf(#[trigger] nt.subrules@[i], source)
            &&& nt.span.0 <= nt.subrules@[i].spec_span().0
            &&& nt.subrules@[i].spec_span().1 <= nt.span.1
        } by {
            let c = n.children@[i];
            let s = nt.subrules@[i];
            lemma_materialized_token_wf(s, c, source);
            lemma_materialized_span(s, c, source);
        }
        assert forall|i: int, j: int|
            #![trigger nt.subrules@[i], nt.subrules@[j]]
            0 <= i < j < nt.subrules@.len() implies nt.subrules@[i].spec_span().0
            <= nt.subrules@[j].spec_span().0 by {
            let c0 = n.children@[i];
            let c1 = n.children@[j];
            assert(node_wf(c0, source.len()));
            lemma_materialized_span(nt.subrules@[i], c0, source);
            lemma_materialized_span(nt.subrules@[j], c1, source);
        }
    }
}

proof fn lemma_materialized_span(t: Token, n: ParseNode, source: Seq<char>)
    requires
        materializes(t, n, source),
    ensures
        t.spec_span() == n.span,
        t.spec_rule() == n.rule,
{
}

/// The characters of `source` from `start` to `end`, as a string.
fn slice_text(source: &Vec<char>, start: usize, end: usize) -> (r: String)
    requires
        start <= end <= source@.len(),
    ensures
        r@ == source@.subrange(start as int, end as int),
{
    let mut out: Vec<char> = Vec::new();
    let mut i: usize = start;
    while i < end
        invariant
            start <= i <= end <= source@.len(),
            out@ == source@.subrange(start as int, i as int),
        decreases end - i,
    {
        out.push(source[i]);
        i = i + 1;
        proof {
            assert(out@ =~= source@.subrange(start as int, i as int));
        }
    }
    string_of(&out)
}

/// The tokens made of the parse nodes `pairs` over `source`, in order.
pub fn pairs_to_tokens(source: &Vec<char>, pairs: &Vec<ParseNode>) -> (r: Vec<Token>)
    requires
        forall|i: int| 0 <= i < pairs@.len() ==> node_in_bounds(#[trigger] pairs@[i], source@.len()),
    ensures
        r@.len() == pairs@.len(),
        forall|i: int| 0 <= i < pairs@.len() ==> materializes(r@[i], #[trigger] pairs@[i], source@),
    decreases pairs,
{
    let mut out: Vec<Token> = Vec::new();
    let mut k: usize = 0;
    while k < pairs.len()
        invariant
            k <= pairs@.len(),
            out@.len() == k,
            forall|i: int| 0 <= i < pairs@.len() ==> node_in_bounds(#[trigger] pairs@[i], source@.len()),
            forall|i: int| 0 <= i < k ==> materializes(out@[i], #[trigger] pairs@[i], source@),
        decreases pairs@.len() - k,
    {
        let node = &pairs[k];
        assert(node_in_bounds(pairs@[k as int], source@.len()));
        if node.children.len() == 0 {
            let content = slice_text(source, node.span.0, node.span.1);
            out.push(Token::Terminal(TerminalToken { span: node.span, rule: node.rule, content }));
        } else {
            proof {
                assert(decreases_to!(pairs => pairs@[k as int]));
            }
            let subrules = pairs_to_tokens(source, &node.children);
            out.push(Token::NonTerminal(NonTerminalToken { span: node.span, rule: node.rule, subrules }));
        }
        k = k + 1;
    }
    out
}

/// The root token for `source` and the top-level parse nodes that the grammar
/// engine produced for it.
pub fn pest_to_tokens(source: &str, pairs: &Vec<ParseNode>) -> (r: RootToken)
    requires
        forall|i: int| 0 <= i < pairs@.len() ==> node_in_bounds(#[trigger] pairs@[i], source@.len()),
    ensures
        r.source@ == source@,
        r.ast@.len() == pairs@.len(),
        forall|i: int| 0 <= i < pairs@.len() ==> materializes(r.ast@[i], #[trigger] pairs@[i], source@),
{
    let chars = chars_of(source);
    let ast = pairs_to_tokens(&chars, pairs);
    RootToken { source: source.to_owned(), ast }
}

impl ParseNode {
    /// Whether every span in this tree is ordered and ends within `len`.
    pub fn is_in_bounds(&self, len: usize) -> (r: bool)
        ensures
            r == node_in_bounds(*self, len as nat),
        decreases self,
    {
        if !(self.span.0 <= self.span.1 && self.span.1 <= len) {
            return false;
        }
        let mut k: usize = 0;
        while k < self.children.len()
            invariant
                k <= self.children@.len(),
                forall|i: int| 0 <= i < k ==> node_in_bounds(#[trigger] self.children@[i], len as nat),
            decreases self.children@.len() - k,
        {
            proof {
                assert(decreases_to!(self => self.children@[k as int]));
            }
            if !self.children[k].is_in_bounds(len) {
                return false;
            }
            k = k + 1;
        }
        true
    }
}

} // verus!
