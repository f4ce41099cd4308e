use vstd::prelude::*;

use crate::token::{is_close, is_open, BfError, Token};

verus! {

/// How an instruction changes the loop nesting depth.
pub open spec fn delta(t: Token) -> int {
    if is_open(t) {
        1
    } else if is_close(t) {
        -1
    } else {
        0
    }
}

/// The net nesting depth of the instructions at `lo .. hi`.
pub open spec fn net(s: Seq<Token>, lo: int, hi: int) -> int
    decreases hi - lo,
{
    if hi <= lo {
        0
    } else {
        net(s, lo, hi - 1) + delta(s[hi - 1])
    }
}

/// The jump target an instruction carries.
pub open spec fn target(t: Token) -> int {
    match t {
        Token::LoopOpen(j) => j as int,
        Token::LoopClose(j) => j as int,
        _ => 0,
    }
}

/// `j` is where the forward scan from the `[` at `i` stops: the first
/// position at which the depth, counted from `i`, comes back to zero.
pub open spec fn matches_forward(s: Seq<Token>, i: int, j: int) -> bool {
    &&& 0 <= i < j < s.len()
    &&& is_open(s[i])
    &&& is_close(s[j])
    &&& net(s, i, j + 1) == 0
    &&& forall|k: int| i < k <= j ==> net(s, i, k) > 0
}

/// `j` is where the backward scan from the `]` at `i` stops: the nearest
/// position before `i` holding an open loop not closed before `i`.
pub open spec fn matches_backward(s: Seq<Token>, i: int, j: int) -> bool {
    &&& 0 <= j < i < s.len()
    &&& is_close(s[i])
    &&& is_open(s[j])
    &&& net(s, j, i) == 1
    &&& forall|k: int| j < k < i ==> net(s, k, i) < 1
}

/// The instruction at `i` is no bracket, or a bracket whose scan finds a partner.
pub open spec fn has_partner(s: Seq<Token>, i: int) -> bool {
    if is_open(s[i]) {
        exists|j: int| matches_forward(s, i, j)
    } else if is_close(s[i]) {
        exists|j: int| matches_backward(s, i, j)
    } else {
        true
    }
}

pub open spec fn all_matched(s: Seq<Token>) -> bool {
    forall|i: int| 0 <= i < s.len() ==> has_partner(s, i)
}

/// Position `i` of `out` is position `i` of `s` with its jump target resolved.
pub open spec fn resolved_at(s: Seq<Token>, out: Seq<Token>, i: int) -> bool {
    if is_open(s[i]) {
        is_open(out[i]) && matches_forward(s, i, target(out[i]))
    } else if is_close(s[i]) {
        is_close(out[i]) && matches_backward(s, i, target(out[i]))
    } else {
        out[i] == s[i]
    }
}

/// `out` is `s` with every jump target resolved.
pub open spec fn resolution_of(s: Seq<Token>, out: Seq<Token>) -> bool {
    &&& out.len() == s.len()
    &&& forall|i: int| 0 <= i < s.len() ==> #[trigger] resolved_at(s, out, i)
}

/// `e` reports the first bracket of `s` that has no partner.
pub open spec fn first_unmatched(s: Seq<Token>, e: BfError) -> bool {
    match e {
        BfError::UnmatchedOpen(i) => {
            &&& i < s.len()
            &&& is_open(s[i as int])
            &&& !has_partner(s, i as int)
            &&& forall|k: int| 0 <= k < i ==> has_partner(s, k)
        },
        BfError::UnmatchedClose(i) => {
            &&& i < s.len()
            &&& is_close(s[i as int])
            &&& !has_partner(s, i as int)
            &&& forall|k: int| 0 <= k < i ==> has_partner(s, k)
        },
        _ => false,
    }
}

/// A balanced bracket sequence: the depth of every prefix is at least zero,
/// and the depth of the whole is zero.
pub open spec fn balanced(s: Seq<Token>) -> bool {
    &&& net(s, 0, s.len() as int) == 0
    &&& forall|k: int| 0 <= k <= s.len() ==> net(s, 0, k) >= 0
}

/// Depths add up over adjacent ranges.
pub proof fn lemma_net_split(s: Seq<Token>, a: int, b: int, c: int)
    requires
        a <= b <= c,
    ensures
        net(s, a, c) == net(s, a, b) + net(s, b, c),
    decreases c - b,
{
    if c > b {
        lemma_net_split(s, a, b, c - 1);
    }
}

/// The depth of a single instruction.
pub proof fn lemma_net_one(s: Seq<Token>, a: int)
    ensures
        net(s, a, a + 1) == delta(s[a]),
{
    assert(net(s, a, a) == 0);
}

proof fn lemma_scan_forward(s: Seq<Token>, i: int, p: int)
    requires
        balanced(s),
        0 <= i < p <= s.len(),
        is_open(s[i]),
        forall|k: int| i < k <= p ==> net(s, i, k) > 0,
    ensures
        exists|j: int| matches_forward(s, i, j),
    decreases s.len() - p,
{
    lemma_net_split(s, 0, i, s.len() as int);
    lemma_net_split(s, i, p, p + 1);
    lemma_net_one(s, p);
    if p == s.len() {
        assert(net(s, i, p) > 0);
    } else if net(s, i, p + 1) == 0 {
        assert(matches_forward(s, i, p));
    } else {
        lemma_scan_forward(s, i, p + 1);
    }
}

proof fn lemma_scan_backward(s: Seq<Token>, i: int, p: int)
    requires
        balanced(s),
        0 <= p <= i < s.len(),
        is_close(s[i]),
        forall|k: int| p <= k < i ==> net(s, k, i) < 1,
    ensures
        exists|j: int| matches_backward(s, i, j),
    decreases p,
{
    lemma_net_split(s, 0, i, i + 1);
    lemma_net_one(s, i);
    assert(net(s, 0, i + 1) >= 0);
    assert(net(s, i, i) == 0);
    if p == 0 {
        assert(net(s, 0, i) >= 1);
    } else {
        let q = p - 1;
        lemma_net_split(s, q, p, i);
        lemma_net_one(s, q);
        if net(s, q, i) == 1 {
            assert(matches_backward(s, i, q));
        } else {
            lemma_scan_backward(s, i, q);
        }
    }
}

/// In a balanced sequence every bracket has a partner, so resolution succeeds.
pub proof fn lemma_balanced_all_matched(s: Seq<Token>)
    requires
        balanced(s),
    ensures
        all_matched(s),
{
    assert forall|i: int| 0 <= i < s.len() implies has_partner(s, i) by {
        if is_open(s[i]) {
            lemma_net_one(s, i);
            lemma_scan_forward(s, i, i + 1);
        } else if is_close(s[i]) {
            lemma_scan_backward(s, i, i);
        }
    }
}

/// The partner found forward from a `[` finds that `[` when scanning back.
pub proof fn lemma_forward_then_backward(s: Seq<Token>, i: int, j: int)
    requires
        matches_forward(s, i, j),
    ensures
        matches_backward(s, j, i),
{
    lemma_net_split(s, i, j, j + 1);
    lemma_net_one(s, j);
    assert forall|k: int| i < k < j implies net(s, k, j) < 1 by {
        lemma_net_split(s, i, k, j);
    }
}

/// The partner found backward from a `]` finds that `]` when scanning forward.
pub proof fn lemma_backward_then_forward(s: Seq<Token>, j: int, i: int)
    requires
        matches_backward(s, j, i),
    ensures
        matches_forward(s, i, j),
{
    lemma_net_split(s, i, j, j + 1);
    lemma_net_one(s, j);
    assert forall|k: int| i < k <= j implies net(s, i, k) > 0 by {
        lemma_net_split(s, i, k, j);
    }
}

/// The forward scan stops at one position only.
pub proof fn lemma_forward_unique(s: Seq<Token>, i: int, a: int, b: int)
    requires
        matches_forward(s, i, a),
        matches_forward(s, i, b),
    ensures
        a == b,
{
    if a < b {
        assert(net(s, i, a + 1) > 0);
    } else if b < a {
        assert(net(s, i, b + 1) > 0);
    }
}

/// The backward scan stops at one position only.
pub proof fn lemma_backward_unique(s: Seq<Token>, i: int, a: int, b: int)
    requires
        matches_backward(s, i, a),
        matches_backward(s, i, b),
    ensures
        a == b,
{
    if a < b {
        assert(net(s, b, i) < 1);
    } else if b < a {
        assert(net(s, a, i) < 1);
    }
}

/// In a balanced program the resolved targets pair up: each `[` points to a
/// `]` that closes exactly its body and points back, and each `]` points to
/// a `[` that points back to it.
pub proof fn lemma_balanced_resolution_pairs(s: Seq<Token>, out: Seq<Token>)
    requires
        balanced(s),
        resolution_of(s, out),
    ensures
        forall|i: int|
            0 <= i < s.len() && is_open(#[trigger] s[i]) ==> {
                let j = target(out[i]);
                &&& matches_forward(s, i, j)
                &&& is_close(out[j])
                &&& target(out[j]) == i
            },
        forall|j: int|
            0 <= j < s.len() && is_close(#[trigger] s[j]) ==> {
                let i = target(out[j]);
                &&& matches_backward(s, j, i)
                &&& is_open(out[i])
                &&& target(out[i]) == j
            },
{
    assert forall|i: int| 0 <= i < s.len() && is_open(#[trigger] s[i]) implies {
        let j = target(out[i]);
        &&& matches_forward(s, i, j)
        &&& is_close(out[j])
        &&& target(out[j]) == i
    } by {
        assert(resolved_at(s, out, i));
        let j = target(out[i]);
        lemma_forward_then_backward(s, i, j);
        assert(resolved_at(s, out, j));
        lemma_backward_unique(s, j, i, target(out[j]));
    }
    assert forall|j: int| 0 <= j < s.len() && is_close(#[trigger] s[j]) implies {
        let i = target(out[j]);
        &&& matches_backward(s, j, i)
        &&& is_open(out[i])
        &&& target(out[i]) == j
    } by {
        assert(resolved_at(s, out, j));
        let i = target(out[j]);
        assert(resolved_at(s, out, i));
        lemma_backward_then_forward(s, j, i);
        lemma_forward_unique(s, i, j, target(out[i]));
    }
}

/// Scan forward from the `[` at `i` for its partner.
fn find_close(program: &Vec<Token>, i: usize) -> (r: Option<usize>)
    requires
        i < program.len(),
        is_open(program@[i as int]),
    ensures
        match r {
            Some(j) => matches_forward(program@, i as int, j as int),
            None => forall|j: int| !matches_forward(program@, i as int, j),
        },
{
    let ghost s = program@;
    let n = program.len();
    let mut depth: usize = 1;
    let mut p: usize = i + 1;
    proof {
        lemma_net_one(s, i as int);
    }
    while depth > 0 && p < n
        invariant
            n == s.len(),
            s == program@,
            i < p <= n,
            depth as int == net(s, i as int, p as int),
            depth <= p - i,
            forall|k: int| i < k < p ==> net(s, i as int, k) > 0,
        decreases n - p,
    {
        match program[p] {
            Token::LoopOpen(_) => {
                depth = depth + 1;
            },
            Token::LoopClose(_) => {
                depth = depth - 1;
            },
            _ => {},
        }
        p = p + 1;
    }
    if depth == 0 {
        assert(net(s, i as int, p as int) == net(s, i as int, p - 1) + delta(s[p - 1]));
        Some(p - 1)
    } else {
        assert forall|j: int| !matches_forward(s, i as int, j) by {
            if matches_forward(s, i as int, j) {
                assert(net(s, i as int, j + 1) > 0);
            }
        }
        None
    }
}

/// Scan backward from the `]` at `i` for its partner.
fn find_open(program: &Vec<Token>, i: usize) -> (r: Option<usize>)
    requires
        i < program.len(),
        is_close(program@[i as int]),
    ensures
        match r {
            Some(j) => matches_backward(program@, i as int, j as int),
            None => forall|j: int| !matches_backward(program@, i as int, j),
        },
{
    let ghost s = program@;
    let n = program.len();
    let mut depth: usize = 1;
    let mut p: usize = i;
    while depth > 0 && p > 0
        invariant
            s == program@,
            n == s.len(),
            i < s.len(),
            p <= i,
            depth as int == 1 - net(s, p as int, i as int),
            depth <= i - p + 1,
            forall|k: int| p < k < i ==> net(s, k, i as int) < 1,
        decreases p,
    {
        p = p - 1;
        match program[p] {
            Token::LoopOpen(_) => {
                depth = depth - 1;
            },
            Token::LoopClose(_) => {
                depth = depth + 1;
            },
            _ => {},
        }
        proof {
            lemma_net_split(s, p as int, p + 1, i as int);
            lemma_net_one(s, p as int);
        }
    }
    if depth == 0 {
        proof {
            lemma_net_split(s, p as int, p + 1, i as int);
            lemma_net_one(s, p as int);
        }
        Some(p)
    } else {
        None
    }
}

/// Give every loop instruction the index of its partner.  Each bracket is
/// resolved by its own linear scan, so the whole pass takes quadratic time
/// in the worst case.
pub fn resolve(program: &Vec<Token>) -> (r: Result<Vec<Token>, BfError>)
    ensures
        r is Ok <==> all_matched(program@),
        r matches Ok(out) ==> resolution_of(program@, out@),
        r matches Err(e) ==> first_unmatched(program@, e),
{
    let ghost s = program@;
    let n = program.len();
    let mut out: Vec<Token> = Vec::new();
    let mut i: usize = 0;
    while i < n
        invariant
            s == program@,
            n == s.len(),
            i <= n,
            out.len() == i,
            forall|k: int| 0 <= k < i ==> has_partner(s, k),
            forall|k: int| 0 <= k < i ==> #[trigger] resolved_at(s, out@, k),
        decreases n - i,
    {
        let t = program[i];
        let ghost before = out@;
        match t {
            Token::LoopOpen(_) => {
                match find_close(program, i) {
                    Some(j) => out.push(Token::LoopOpen(j)),
                    None => {
                        assert(!has_partner(s, i as int));
                        return Err(BfError::UnmatchedOpen(i));
                    },
                }
            },
            Token::LoopClose(_) => {
                match find_open(program, i) {
                    Some(j) => out.push(Token::LoopClose(j)),
                    None => {
                        assert(!has_partner(s, i as int));
                        return Err(BfError::UnmatchedClose(i));
                    },
                }
            },
            _ => out.push(t),
        }
        assert forall|k: int| 0 <= k < i + 1 implies #[trigger] resolved_at(s, out@, k) by {
            if k < i {
                assert(resolved_at(s, before, k));
                assert(out@[k] == before[k]);
            }
        }
        i = i + 1;
    }
    Ok(out)
}

} // verus!
