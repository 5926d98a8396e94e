//! The shunting-yard expression builder: tokens of one expression in, nodes
//! in postfix order out.
use vstd::prelude::*;
use crate::chars::{chars_of, spells};
use crate::node::{node_views, Node};
use crate::token::{SyntaxError, Token, TokenView};

verus! {

/// Binding strength of an operator; higher binds tighter, unlisted ones get 0.
pub open spec fn priority(op: Seq<char>) -> u8 {
    if op.len() == 1 {
        match op[0] {
            '.' => 15,
            '^' => 12,
            '*' | '/' => 11,
            '+' | '-' => 10,
            '<' | '>' => 9,
            '=' => 1,
            _ => 0,
        }
    } else if op.len() == 2 {
        match (op[0], op[1]) {
            ('u', '-') => 13,
            ('<', '=') | ('>', '=') | ('i', 's') => 9,
            ('=', '=') | ('!', '=') => 8,
            ('o', 'r') => 6,
            ('i', 'f') => 2,
            ('+', '=') | ('-', '=') | ('*', '=') | ('/', '=') => 1,
            _ => 0,
        }
    } else if op == seq!['n', 'o', 't'] {
        13
    } else if op == seq!['a', 'n', 'd'] {
        7
    } else if op == seq!['x', 'o', 'r'] {
        6
    } else if op == seq!['m', 'a', 't', 'c', 'h'] {
        2
    } else {
        0
    }
}

/// The binding strength of `operator`.
pub fn get_priority(operator: &String) -> (r: u8)
    ensures
        r == priority(operator@),
{
    let cs = chars_of(operator.as_str());
    let n = cs.len();
    assert(cs@.subrange(0, n as int) =~= operator@);
    if n == 1 {
        match cs[0] {
            '.' => 15,
            '^' => 12,
            '*' | '/' => 11,
            '+' | '-' => 10,
            '<' | '>' => 9,
            '=' => 1,
            _ => 0,
        }
    } else if n == 2 {
        match (cs[0], cs[1]) {
            ('u', '-') => 13,
            ('<', '=') | ('>', '=') | ('i', 's') => 9,
            ('=', '=') | ('!', '=') => 8,
            ('o', 'r') => 6,
            ('i', 'f') => 2,
            ('+', '=') | ('-', '=') | ('*', '=') | ('/', '=') => 1,
            _ => 0,
        }
    } else if spells(&cs, 0, n, &['n', 'o', 't']) {
        13
    } else if spells(&cs, 0, n, &['a', 'n', 'd']) {
        7
    } else if spells(&cs, 0, n, &['x', 'o', 'r']) {
        6
    } else if spells(&cs, 0, n, &['m', 'a', 't', 'c', 'h']) {
        2
    } else {
        0
    }
}

/// What a builder holds: the operator stack (top last) and the output so far.
pub struct BuilderView {
    pub stack: Seq<TokenView>,
    pub output: Seq<TokenView>,
}

#[derive(Clone, Copy)]
pub enum BuildErrorKind {
    NewLineGiven,
    NoMatchingOpen,
    ExtraParenthesis,
}

/// An expression building failure: its kind and byte offset.
pub struct BuildError {
    pub kind: BuildErrorKind,
    pub pos: nat,
}

pub open spec fn build_message(kind: BuildErrorKind) -> Seq<char> {
    match kind {
        BuildErrorKind::NewLineGiven => "No need to pass the NewLine token to the push_token function, call notify_met_separator instead"@,
        BuildErrorKind::NoMatchingOpen => "This closing parenthesis has no matching opening parenthesis"@,
        BuildErrorKind::ExtraParenthesis => "The expression contains an extra or inconsistent parenthesis"@,
    }
}

fn build_error(kind: BuildErrorKind, pos: usize) -> (e: SyntaxError)
    ensures
        e.pos == pos,
        e.message@ == build_message(kind),
{
    let message = match kind {
        BuildErrorKind::NewLineGiven => String::from_str(
            "No need to pass the NewLine token to the push_token function, call notify_met_separator instead",
        ),
        BuildErrorKind::NoMatchingOpen => String::from_str(
            "This closing parenthesis has no matching opening parenthesis",
        ),
        BuildErrorKind::ExtraParenthesis => String::from_str(
            "The expression contains an extra or inconsistent parenthesis",
        ),
    };
    SyntaxError { pos, message }
}

pub open spec fn build_agrees(r: Result<(), SyntaxError>, m: Option<BuildError>) -> bool {
    match (r, m) {
        (Ok(_), None) => true,
        (Err(e), Some(be)) => e.pos as nat == be.pos && e.message@ == build_message(be.kind),
        _ => false,
    }
}

/// Whether `t` is the operator token spelled by the single character `c`.
pub open spec fn is_bracket(t: TokenView, c: char) -> bool {
    t matches TokenView::Operator { payload, .. } && payload == seq![c]
}

/// Whether `top`, on top of the stack, goes to the output before `op` is pushed.
pub open spec fn pops_before(top: TokenView, op: Seq<char>) -> bool {
    ||| top is Function
    ||| top matches TokenView::Operator { payload, .. } && priority(payload) >= priority(op)
}

pub open spec fn pop_one(b: BuilderView) -> BuilderView {
    BuilderView { stack: b.stack.drop_last(), output: b.output.push(b.stack.last()) }
}

/// Moves entries from the stack to the output while they bind at least as
/// tightly as `op`.
pub open spec fn pop_for(b: BuilderView, op: Seq<char>) -> BuilderView
    decreases b.stack.len(),
{
    if b.stack.len() > 0 && pops_before(b.stack.last(), op) {
        pop_for(pop_one(b), op)
    } else {
        b
    }
}

/// Moves entries to the output down to the nearest `(`, which is dropped;
/// `false` when the stack runs out first.
pub open spec fn pop_to_open(b: BuilderView) -> (BuilderView, bool)
    decreases b.stack.len(),
{
    if b.stack.len() == 0 {
        (b, false)
    } else if is_bracket(b.stack.last(), '(') {
        (BuilderView { stack: b.stack.drop_last(), output: b.output }, true)
    } else {
        pop_to_open(pop_one(b))
    }
}

/// Moves every entry to the output, stopping at a parenthesis, whose offset
/// is then returned.
pub open spec fn drain(b: BuilderView) -> (BuilderView, Option<nat>)
    decreases b.stack.len(),
{
    if b.stack.len() == 0 {
        (b, None)
    } else if is_bracket(b.stack.last(), '(') || is_bracket(b.stack.last(), ')') {
        (b, Some(b.stack.last().pos()))
    } else {
        drain(pop_one(b))
    }
}

/// The builder after receiving token `t`, and the error, if any.
pub open spec fn push_spec(b: BuilderView, t: TokenView) -> (BuilderView, Option<BuildError>) {
    match t {
        TokenView::Function { .. } => (BuilderView { stack: b.stack.push(t), output: b.output }, None),
        TokenView::Operator { payload, pos } => if payload == seq!['('] {
            (BuilderView { stack: b.stack.push(t), output: b.output }, None)
        } else if payload == seq![')'] {
            let (after, found) = pop_to_open(b);
            (
                after,
                if found {
                    None
                } else {
                    Some(BuildError { kind: BuildErrorKind::NoMatchingOpen, pos })
                },
            )
        } else {
            let after = pop_for(b, payload);
            (BuilderView { stack: after.stack.push(t), output: after.output }, None)
        },
        TokenView::NewLine { pos } => (b, Some(BuildError { kind: BuildErrorKind::NewLineGiven, pos })),
        _ => (BuilderView { stack: b.stack, output: b.output.push(t) }, None),
    }
}

/// The builder at the end of an expression, and the error, if any.
pub open spec fn end_spec(b: BuilderView) -> (BuilderView, Option<BuildError>) {
    let (after, paren) = drain(b);
    (
        after,
        match paren {
            Some(pos) => Some(BuildError { kind: BuildErrorKind::ExtraParenthesis, pos }),
            None => None,
        },
    )
}

pub open spec fn is_paren(t: TokenView) -> bool {
    is_bracket(t, '(') || is_bracket(t, ')')
}

proof fn lemma_pop_to_open_without_open(b: BuilderView)
    requires
        forall|k: int| 0 <= k < b.stack.len() ==> !is_bracket(#[trigger] b.stack[k], '('),
    ensures
        !pop_to_open(b).1,
    decreases b.stack.len(),
{
    if b.stack.len() > 0 {
        let c = pop_one(b);
        assert forall|k: int| 0 <= k < c.stack.len() implies !is_bracket(#[trigger] c.stack[k], '(') by {
            assert(c.stack[k] == b.stack[k]);
        }
        lemma_pop_to_open_without_open(c);
    }
}

/// A `)` that meets no `(` on the stack is refused, at the `)`'s offset.
pub proof fn lemma_stray_close_fails(b: BuilderView, pos: nat)
    requires
        forall|k: int| 0 <= k < b.stack.len() ==> !is_bracket(#[trigger] b.stack[k], '('),
    ensures
        push_spec(b, TokenView::Operator { payload: seq![')'], pos }).1 == Some(
            BuildError { kind: BuildErrorKind::NoMatchingOpen, pos },
        ),
{
    lemma_pop_to_open_without_open(b);
    assert(seq![')'][0] != seq!['('][0]);
}

/// Ending an expression fails exactly when a parenthesis is left on the
/// stack, and then with the extra-parenthesis error.
pub proof fn lemma_end_fails_on_parenthesis(b: BuilderView)
    ensures
        end_spec(b).1 is Some <==> exists|k: int| 0 <= k < b.stack.len() && is_paren(#[trigger] b.stack[k]),
        end_spec(b).1 matches Some(e) ==> e.kind == BuildErrorKind::ExtraParenthesis,
    decreases b.stack.len(),
{
    if b.stack.len() > 0 && !is_paren(b.stack.last()) {
        let c = pop_one(b);
        lemma_end_fails_on_parenthesis(c);
        assert(drain(b) == drain(c));
        if exists|k: int| 0 <= k < b.stack.len() && is_paren(#[trigger] b.stack[k]) {
            let k = choose|k: int| 0 <= k < b.stack.len() && is_paren(#[trigger] b.stack[k]);
            assert(k < c.stack.len());
            assert(c.stack[k] == b.stack[k]);
        }
        if exists|k: int| 0 <= k < c.stack.len() && is_paren(#[trigger] c.stack[k]) {
            let k = choose|k: int| 0 <= k < c.stack.len() && is_paren(#[trigger] c.stack[k]);
            assert(c.stack[k] == b.stack[k]);
        }
    } else if b.stack.len() > 0 {
        assert(is_paren(b.stack[b.stack.len() - 1]));
    }
}

fn is_single(s: &String, c: char) -> (r: bool)
    ensures
        r == (s@ == seq![c]),
{
    let cs = chars_of(s.as_str());
    if cs.len() == 1 && cs[0] == c {
        assert(cs@ =~= seq![c]);
        true
    } else {
        false
    }
}

fn bracket_token(t: &Token, c: char) -> (r: bool)
    ensures
        r == is_bracket(t@, c),
{
    match t {
        Token::Operator { payload, .. } => is_single(payload, c),
        _ => false,
    }
}

/// Converts a sequence of tokens into postfix order, one expression at a time.
pub struct RpnTreeBuilder {
    stack: Vec<Node>,
    output: Vec<Node>,
}

impl View for RpnTreeBuilder {
    type V = BuilderView;

    closed spec fn view(&self) -> BuilderView {
        BuilderView { stack: node_views(self.stack@), output: node_views(self.output@) }
    }
}

impl RpnTreeBuilder {
    pub fn new() -> (r: RpnTreeBuilder)
        ensures
            r@.stack == Seq::<TokenView>::empty(),
            r@.output == Seq::<TokenView>::empty(),
    {
        let r = RpnTreeBuilder { stack: Vec::new(), output: Vec::new() };
        assert(r@.stack =~= Seq::<TokenView>::empty());
        assert(r@.output =~= Seq::<TokenView>::empty());
        r
    }

    /// The postfix nodes produced so far.
    pub fn output(&self) -> (r: &Vec<Node>)
        ensures
            node_views(r@) == self@.output,
    {
        &self.output
    }

    /// The postfix nodes produced, taking the builder.
    pub fn into_output(self) -> (r: Vec<Node>)
        ensures
            node_views(r@) == self@.output,
    {
        self.output
    }

    /// Moves the top of the stack to the output.
    fn move_top(&mut self)
        requires
            old(self)@.stack.len() > 0,
        ensures
            final(self)@ == pop_one(old(self)@),
    {
        let ghost b = self@;
        match self.stack.pop() {
            Some(node) => {
                self.output.push(node);
            },
            None => {},
        }
        assert(self@.stack =~= pop_one(b).stack);
        assert(self@.output =~= pop_one(b).output);
    }

    fn push_stack(&mut self, node: Node)
        ensures
            final(self)@ == (BuilderView { stack: old(self)@.stack.push(node@), output: old(self)@.output }),
    {
        let ghost b = self@;
        self.stack.push(node);
        assert(self@.stack =~= b.stack.push(node@));
    }

    fn push_output(&mut self, node: Node)
        ensures
            final(self)@ == (BuilderView { stack: old(self)@.stack, output: old(self)@.output.push(node@) }),
    {
        let ghost b = self@;
        self.output.push(node);
        assert(self@.output =~= b.output.push(node@));
    }

    /// The top of the stack.
    fn top(&self) -> (r: &Token)
        requires
            self@.stack.len() > 0,
        ensures
            r@ == self@.stack.last(),
    {
        &self.stack[self.stack.len() - 1].data
    }

    fn pop_for_operator(&mut self, op: &String)
        ensures
            final(self)@ == pop_for(old(self)@, op@),
    {
        let prio = get_priority(op);
        loop
            invariant
                pop_for(self@, op@) == pop_for(old(self)@, op@),
                prio == priority(op@),
            ensures
                self@ == pop_for(old(self)@, op@),
            decreases self@.stack.len(),
        {
            if self.stack.len() == 0 {
                break;
            }
            let goes = match self.top() {
                Token::Function { .. } => true,
                Token::Operator { payload, .. } => get_priority(payload) >= prio,
                _ => false,
            };
            if !goes {
                break;
            }
            self.move_top();
        }
    }

    /// Handles `)`: returns whether a matching `(` was found.
    fn pop_to_open_bracket(&mut self) -> (found: bool)
        ensures
            (final(self)@, found) == pop_to_open(old(self)@),
    {
        loop
            invariant
                pop_to_open(self@) == pop_to_open(old(self)@),
            decreases self@.stack.len(),
        {
            if self.stack.len() == 0 {
                return false;
            }
            if bracket_token(self.top(), '(') {
                let ghost b = self@;
                let _ = self.stack.pop();
                assert(self@.stack =~= b.stack.drop_last());
                return true;
            }
            self.move_top();
        }
    }

    /// Takes the next token of the current expression (shunting-yard).
    pub fn push_token(&mut self, token: Token) -> (r: Result<(), SyntaxError>)
        ensures
            final(self)@ == push_spec(old(self)@, token@).0,
            build_agrees(r, push_spec(old(self)@, token@).1),
    {
        match &token {
            Token::Function { .. } => {
                self.push_stack(Node::from(token));
                Ok(())
            },
            Token::Operator { payload, pos } => {
                let pos = *pos;
                if is_single(payload, '(') {
                    self.push_stack(Node::from(token));
                    Ok(())
                } else if is_single(payload, ')') {
                    if self.pop_to_open_bracket() {
                        Ok(())
                    } else {
                        Err(build_error(BuildErrorKind::NoMatchingOpen, pos))
                    }
                } else {
                    self.pop_for_operator(payload);
                    self.push_stack(Node::from(token));
                    Ok(())
                }
            },
            Token::NewLine { pos } => Err(build_error(BuildErrorKind::NewLineGiven, *pos)),
            _ => {
                self.push_output(Node::from(token));
                Ok(())
            },
        }
    }

    /// Ends the current expression: every stacked entry goes to the output.
    /// `_pos` is the offset of the separator that ended it; an error here
    /// points at the offending parenthesis instead.
    pub fn notify_met_separator(&mut self, _pos: usize) -> (r: Result<(), SyntaxError>)
        ensures
            final(self)@ == end_spec(old(self)@).0,
            build_agrees(r, end_spec(old(self)@).1),
    {
        loop
            invariant
                drain(self@) == drain(old(self)@),
            decreases self@.stack.len(),
        {
            if self.stack.len() == 0 {
                return Ok(());
            }
            let top = self.top();
            if bracket_token(top, '(') || bracket_token(top, ')') {
                return Err(build_error(BuildErrorKind::ExtraParenthesis, top.pos()));
            }
            self.move_top();
        }
    }
}

} // verus!
