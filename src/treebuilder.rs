//! Splits a token sequence into expressions at `NewLine` tokens and builds
//! each one in postfix order.
use vstd::prelude::*;
use crate::node::{node_views, Node};
use crate::rpntreebuilder::{
    build_message, end_spec, push_spec, BuildError, BuilderView, RpnTreeBuilder,
};
use crate::token::{views_of, SyntaxError, Token, TokenView};

verus! {

pub open spec fn fresh_builder() -> BuilderView {
    BuilderView { stack: Seq::empty(), output: Seq::empty() }
}

/// Builds the rest `ts` of a token sequence. `b` is the builder of the
/// current expression, `pending` whether it has received a token, and `done`
/// the postfix sequences of the expressions already ended.
pub open spec fn build_from(
    ts: Seq<TokenView>,
    b: BuilderView,
    pending: bool,
    done: Seq<Seq<TokenView>>,
) -> Result<Seq<Seq<TokenView>>, BuildError>
    decreases ts.len(),
{
    if ts.len() == 0 {
        if pending {
            match end_spec(b).1 {
                Some(e) => Err(e),
                None => Ok(done.push(end_spec(b).0.output)),
            }
        } else {
            Ok(done)
        }
    } else if ts[0] is NewLine {
        if pending {
            match end_spec(b).1 {
                Some(e) => Err(e),
                None => build_from(ts.drop_first(), fresh_builder(), false, done.push(end_spec(b).0.output)),
            }
        } else {
            build_from(ts.drop_first(), b, false, done)
        }
    } else {
        match push_spec(b, ts[0]).1 {
            Some(e) => Err(e),
            None => build_from(ts.drop_first(), push_spec(b, ts[0]).0, true, done),
        }
    }
}

/// The postfix sequence of each non-empty expression of `ts`, in order.
pub open spec fn build_lines(ts: Seq<TokenView>) -> Result<Seq<Seq<TokenView>>, BuildError> {
    build_from(ts, fresh_builder(), false, Seq::empty())
}

pub open spec fn lines_view(es: Seq<Vec<Node>>) -> Seq<Seq<TokenView>> {
    es.map_values(|e: Vec<Node>| node_views(e@))
}

pub open spec fn lines_agree(
    r: Result<Vec<Vec<Node>>, SyntaxError>,
    m: Result<Seq<Seq<TokenView>>, BuildError>,
) -> bool {
    match (r, m) {
        (Ok(es), Ok(vs)) => lines_view(es@) == vs,
        (Err(e), Err(be)) => e.pos as nat == be.pos && e.message@ == build_message(be.kind),
        _ => false,
    }
}

/// A copy of `t`.
pub fn copy_token(t: &Token) -> (r: Token)
    ensures
        r@ == t@,
{
    match t {
        Token::Operator { payload, pos } => Token::Operator { payload: payload.clone(), pos: *pos },
        Token::Identifier { name, pos } => Token::Identifier { name: name.clone(), pos: *pos },
        Token::Function { name, pos } => Token::Function { name: name.clone(), pos: *pos },
        Token::IntConstant { value, pos } => Token::IntConstant { value: *value, pos: *pos },
        Token::FloatConstant { digits, scale, pos } => Token::FloatConstant {
            digits: digits.clone(),
            scale: *scale,
            pos: *pos,
        },
        Token::StringConstant { value, pos } => Token::StringConstant { value: value.clone(), pos: *pos },
        Token::NewLine { pos } => Token::NewLine { pos: *pos },
    }
}

/// Splits tokens into expressions and builds each with a fresh `RpnTreeBuilder`.
pub struct TreeBuilder {}

impl TreeBuilder {
    /// A builder; each call to `build_tree` starts afresh.
    pub fn new() -> TreeBuilder {
        TreeBuilder {  }
    }

    /// The postfix nodes of every non-empty expression of `tokens`, where
    /// expressions are separated by `NewLine` tokens; or the first error.
    pub fn build_tree(&self, tokens: &Vec<Token>) -> (r: Result<Vec<Vec<Node>>, SyntaxError>)
        ensures
            lines_agree(r, build_lines(views_of(tokens@))),
    {
        let ghost all = views_of(tokens@);
        let mut done: Vec<Vec<Node>> = Vec::new();
        let mut builder = RpnTreeBuilder::new();
        let mut pending = false;
        let mut last_pos: usize = 0;
        let mut i: usize = 0;
        assert(builder@ == fresh_builder());
        assert(lines_view(done@) =~= Seq::<Seq<TokenView>>::empty());
        assert(all.skip(0) =~= all);
        while i < tokens.len()
            invariant
                i <= tokens@.len(),
                all == views_of(tokens@),
                build_from(all.skip(i as int), builder@, pending, lines_view(done@)) == build_lines(
                    all,
                ),
            decreases tokens@.len() - i,
        {
            let ghost rest = all.skip(i as int);
            assert(rest.drop_first() =~= all.skip(i + 1));
            assert(rest[0] == tokens@[i as int]@);
            match &tokens[i] {
                Token::NewLine { pos } => {
                    if pending {
                        let ghost b0 = builder@;
                        match builder.notify_met_separator(*pos) {
                            Err(e) => return Err(e),
                            Ok(()) => {},
                        }
                        let ghost before = lines_view(done@);
                        done.push(builder.into_output());
                        assert(lines_view(done@) =~= before.push(end_spec(b0).0.output));
                        builder = RpnTreeBuilder::new();
                        assert(builder@ == fresh_builder());
                        pending = false;
                    }
                },
                t => {
                    last_pos = t.pos();
                    match builder.push_token(copy_token(t)) {
                        Err(e) => return Err(e),
                        Ok(()) => {},
                    }
                    pending = true;
                },
            }
            i = i + 1;
        }
        assert(all.skip(i as int) =~= Seq::<TokenView>::empty());
        if pending {
            let ghost b0 = builder@;
            match builder.notify_met_separator(last_pos) {
                Err(e) => return Err(e),
                Ok(()) => {},
            }
            let ghost before = lines_view(done@);
            done.push(builder.into_output());
            assert(lines_view(done@) =~= before.push(end_spec(b0).0.output));
        }
        Ok(done)
    }
}

} // verus!
