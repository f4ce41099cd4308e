use vstd::prelude::*;

use crate::resolver::{all_matched, first_unmatched, resolution_of, resolve};
use crate::token::{char_of, char_to_token, token_of, token_text, unresolved, BfError, Token};

verus! {

broadcast use vstd::string::axiom_spec_iter;

/// The program that a text lexes to: one instruction per recognised
/// character, in order; every other character is dropped.
pub open spec fn lex_spec(s: Seq<char>) -> Seq<Token>
    decreases s.len(),
{
    if s.len() == 0 {
        Seq::empty()
    } else {
        let rest = lex_spec(s.drop_last());
        match token_of(s.last()) {
            Some(t) => rest.push(t),
            None => rest,
        }
    }
}

/// The canonical text of a program: one character per instruction.
pub open spec fn render_spec(p: Seq<Token>) -> Seq<char> {
    p.map_values(|t: Token| char_of(t))
}

/// Every loop instruction of the program carries the placeholder target.
pub open spec fn is_unresolved(p: Seq<Token>) -> bool {
    forall|i: int| 0 <= i < p.len() ==> #[trigger] p[i] == unresolved(p[i])
}

/// Lexing the character of an instruction gives the instruction back, with
/// its target reset to the placeholder.
pub proof fn lemma_char_round_trip(t: Token)
    ensures
        token_of(char_of(t)) == Some(unresolved(t)),
{
}

/// The lexer only ever produces placeholder targets.
pub proof fn lemma_lex_unresolved(s: Seq<char>)
    ensures
        is_unresolved(lex_spec(s)),
    decreases s.len(),
{
    if s.len() > 0 {
        lemma_lex_unresolved(s.drop_last());
    }
}

/// Lexing the canonical text of a program with placeholder targets gives
/// back the same program.
pub proof fn lemma_render_lex(p: Seq<Token>)
    requires
        is_unresolved(p),
    ensures
        lex_spec(render_spec(p)) == p,
    decreases p.len(),
{
    if p.len() > 0 {
        let q = p.drop_last();
        assert(render_spec(p).drop_last() =~= render_spec(q));
        assert(is_unresolved(q)) by {
            assert forall|i: int| 0 <= i < q.len() implies #[trigger] q[i] == unresolved(q[i]) by {
                assert(q[i] == p[i]);
            }
        }
        lemma_render_lex(q);
        lemma_char_round_trip(p.last());
        assert(p.last() == unresolved(p.last()));
        assert(q.push(p.last()) =~= p);
    }
}

/// Lexing is idempotent on its own output: lexing the canonical text of a
/// lexed program reproduces that program.
pub proof fn lemma_lex_idempotent(s: Seq<char>)
    ensures
        lex_spec(render_spec(lex_spec(s))) == lex_spec(s),
{
    lemma_lex_unresolved(s);
    lemma_render_lex(lex_spec(s));
}

/// Turn source text into a program, dropping every character outside the language.
pub fn lex(input: &str) -> (r: Vec<Token>)
    ensures
        r@ == lex_spec(input@),
{
    let mut tokens: Vec<Token> = Vec::new();
    for ch in it: input.chars()
        invariant
            it.seq() == input@,
            tokens@ == lex_spec(input@.subrange(0, it.index() as int)),
    {
        let ghost k = it.index() as int;
        proof {
            let pre = input@.subrange(0, k + 1);
            assert(pre.drop_last() =~= input@.subrange(0, k));
            assert(pre.last() == ch);
        }
        if let Some(t) = char_to_token(&ch) {
            tokens.push(t);
        }
    }
    proof {
        assert(input@.subrange(0, input@.len() as int) =~= input@);
    }
    tokens
}

/// Lex source text and resolve its loops: the program ready to run, or the
/// first bracket without a partner.
pub fn tokenize(input: &str) -> (r: Result<Vec<Token>, BfError>)
    ensures
        r is Ok <==> all_matched(lex_spec(input@)),
        r matches Ok(out) ==> resolution_of(lex_spec(input@), out@),
        r matches Err(e) ==> first_unmatched(lex_spec(input@), e),
{
    let tokens = lex(input);
    resolve(&tokens)
}

/// Write a program as text, one character per instruction.
pub fn render(program: &Vec<Token>) -> (r: String)
    ensures
        r@ == render_spec(program@),
{
    let mut out = String::new();
    let mut i: usize = 0;
    while i < program.len()
        invariant
            i <= program.len(),
            out@ == render_spec(program@.subrange(0, i as int)),
        decreases program.len() - i,
    {
        out.append(token_text(program[i]));
        proof {
            assert(program@.subrange(0, i + 1) =~= program@.subrange(0, i as int).push(program@[i as int]));
        }
        i = i + 1;
    }
    proof {
        assert(program@.subrange(0, i as int) =~= program@);
    }
    out
}

} // verus!
