use vstd::prelude::*;

verus! {

/// One instruction of a program.
#[derive(Debug, Clone, Copy, PartialEq, Eq, Structural)]
pub enum Token {
    /// `+`: add to the current cell, modulo 256.
    IncrementData(u8),
    /// `-`: subtract from the current cell, modulo 256.
    DecrementData(u8),
    /// `>`: move the data pointer forward.
    IncrementPointer(usize),
    /// `<`: move the data pointer backward.
    DecrementPointer(usize),
    /// `,`: read one byte into the current cell.
    Input,
    /// `.`: write the current cell.
    Output,
    /// `[`: holds the index of the matching `LoopEnd`.
    LoopStart(u32),
    /// `]`: holds the index of the matching `LoopStart`.
    LoopEnd(u32),
}

/// Change of loop nesting caused by one instruction.
pub open spec fn loop_delta(t: Token) -> int {
    match t {
        Token::LoopStart(_) => 1,
        Token::LoopEnd(_) => -1,
        _ => 0,
    }
}

/// Loop nesting depth of `t` just before index `k`.
pub open spec fn depth(t: Seq<Token>, k: int) -> int
    decreases k,
{
    if k <= 0 {
        0
    } else {
        depth(t, k - 1) + loop_delta(t[k - 1])
    }
}

/// The jump target carried by a loop instruction.
pub open spec fn target(t: Token) -> int {
    match t {
        Token::LoopStart(x) => x as int,
        Token::LoopEnd(x) => x as int,
        _ => 0,
    }
}

/// `i` opens a loop that `j` closes: `j` is the first index after `i`
/// where the nesting depth drops back to the depth before `i`.
pub open spec fn matched(t: Seq<Token>, i: int, j: int) -> bool {
    &&& 0 <= i < j < t.len()
    &&& t[i] is LoopStart
    &&& t[j] is LoopEnd
    &&& depth(t, j + 1) == depth(t, i)
    &&& forall|k: int| i < k <= j ==> #[trigger] depth(t, k) > depth(t, i)
}

/// The `LoopStart` at `i` targets its matching `LoopEnd`, which targets it back.
pub open spec fn start_resolved(t: Seq<Token>, i: int) -> bool {
    &&& matched(t, i, target(t[i]))
    &&& target(t[target(t[i])]) == i
}

/// The `LoopEnd` at `j` targets its matching `LoopStart`, which targets it back.
pub open spec fn end_resolved(t: Seq<Token>, j: int) -> bool {
    &&& matched(t, target(t[j]), j)
    &&& target(t[target(t[j])]) == j
}

/// Every loop instruction targets its matching partner, and the partner
/// targets it back.
pub open spec fn brackets_resolved(t: Seq<Token>) -> bool {
    &&& forall|i: int| 0 <= i < t.len() && #[trigger] t[i] is LoopStart ==> start_resolved(t, i)
    &&& forall|j: int| 0 <= j < t.len() && #[trigger] t[j] is LoopEnd ==> end_resolved(t, j)
}

/// A resolved program: its loops balance and every loop instruction targets
/// its partner.
pub open spec fn resolved_program(t: Seq<Token>) -> bool {
    &&& brackets_resolved(t)
    &&& depth(t, t.len() as int) == 0
}

/// Two instructions of one counted variant, which the peephole pass merges.
pub open spec fn mergeable(a: Token, b: Token) -> bool {
    match (a, b) {
        (Token::IncrementData(_), Token::IncrementData(_)) => true,
        (Token::DecrementData(_), Token::DecrementData(_)) => true,
        (Token::IncrementPointer(_), Token::IncrementPointer(_)) => true,
        (Token::DecrementPointer(_), Token::DecrementPointer(_)) => true,
        _ => false,
    }
}

/// The counted instruction that does what `a` and then `b` do; data counts wrap
/// modulo 256, pointer counts modulo the machine word.
pub open spec fn merge(a: Token, b: Token) -> Token {
    match (a, b) {
        (Token::IncrementData(x), Token::IncrementData(y)) => Token::IncrementData(x.wrapping_add(y)),
        (Token::DecrementData(x), Token::DecrementData(y)) => Token::DecrementData(x.wrapping_add(y)),
        (Token::IncrementPointer(x), Token::IncrementPointer(y)) => Token::IncrementPointer(
            x.wrapping_add(y),
        ),
        (Token::DecrementPointer(x), Token::DecrementPointer(y)) => Token::DecrementPointer(
            x.wrapping_add(y),
        ),
        _ => a,
    }
}

/// The first `n` instructions of `t` with every run of one counted variant
/// merged into a single instruction.
pub open spec fn folded(t: Seq<Token>, n: int) -> Seq<Token>
    decreases n,
{
    if n <= 0 {
        seq![]
    } else if n >= 2 && mergeable(t[n - 2], t[n - 1]) {
        folded(t, n - 1).drop_last().push(merge(folded(t, n - 1).last(), t[n - 1]))
    } else {
        folded(t, n - 1).push(t[n - 1])
    }
}

/// `a` and `b` are the same instruction, loop targets aside.
pub open spec fn same_op(a: Token, b: Token) -> bool {
    ||| a == b
    ||| (a is LoopStart && b is LoopStart)
    ||| (a is LoopEnd && b is LoopEnd)
}

/// The characters that stand for instructions; all others are comments.
pub open spec fn is_instruction_char(c: char) -> bool {
    c == '+' || c == '-' || c == '>' || c == '<' || c == ',' || c == '.' || c == '[' || c == ']'
}

/// The instruction characters among the first `n` characters of `s`, in order.
pub open spec fn instruction_chars(s: Seq<char>, n: int) -> Seq<char>
    decreases n,
{
    if n <= 0 {
        seq![]
    } else if is_instruction_char(s[n - 1]) {
        instruction_chars(s, n - 1).push(s[n - 1])
    } else {
        instruction_chars(s, n - 1)
    }
}

/// `t` is the instruction that the character `c` stands for, loop targets aside.
pub open spec fn spells(c: char, t: Token) -> bool {
    match t {
        Token::IncrementData(n) => c == '+' && n == 1,
        Token::DecrementData(n) => c == '-' && n == 1,
        Token::IncrementPointer(n) => c == '>' && n == 1,
        Token::DecrementPointer(n) => c == '<' && n == 1,
        Token::Input => c == ',',
        Token::Output => c == '.',
        Token::LoopStart(_) => c == '[',
        Token::LoopEnd(_) => c == ']',
    }
}

/// Bracket nesting depth after the first `n` characters of `s`.
pub open spec fn char_depth(s: Seq<char>, n: int) -> int
    decreases n,
{
    if n <= 0 {
        0
    } else if s[n - 1] == '[' {
        char_depth(s, n - 1) + 1
    } else if s[n - 1] == ']' {
        char_depth(s, n - 1) - 1
    } else {
        char_depth(s, n - 1)
    }
}

/// No prefix of `s` closes more loops than it opens.
pub open spec fn closes_balanced(s: Seq<char>) -> bool {
    forall|m: int| 0 <= m <= s.len() ==> #[trigger] char_depth(s, m) >= 0
}

/// The 1-based line of character `k` of `s`.
pub open spec fn line_at(s: Seq<char>, k: int) -> int
    decreases k,
{
    if k <= 0 {
        1
    } else if s[k - 1] == '\n' {
        line_at(s, k - 1) + 1
    } else {
        line_at(s, k - 1)
    }
}

/// The 1-based column of character `k` of `s`.
pub open spec fn column_at(s: Seq<char>, k: int) -> int
    decreases k,
{
    if k <= 0 {
        1
    } else if s[k - 1] == '\n' {
        1
    } else {
        column_at(s, k - 1) + 1
    }
}

/// Character `k` is the first `]` of `s` that has no open `[` to close.
pub open spec fn unmatched_close_at(s: Seq<char>, k: int) -> bool {
    &&& 0 <= k < s.len()
    &&& char_depth(s, k + 1) < 0
    &&& forall|m: int| 0 <= m <= k ==> #[trigger] char_depth(s, m) >= 0
}

/// Character `k` is the oldest `[` of `s` that is never closed.
pub open spec fn unmatched_open_at(s: Seq<char>, k: int) -> bool {
    &&& 0 <= k < s.len()
    &&& char_depth(s, k) == 0
    &&& forall|m: int| k < m <= s.len() ==> #[trigger] char_depth(s, m) > 0
}

/// Every bracket of `s` is matched.
pub open spec fn source_balanced(s: Seq<char>) -> bool {
    closes_balanced(s) && char_depth(s, s.len() as int) == 0
}

/// `e` is the error that the resolver reports for `s`: the first `]` that
/// closes nothing, else the oldest `[` left open.
pub open spec fn tokenize_error(s: Seq<char>, e: TokenizerError) -> bool {
    match e.kind {
        TokenizerErrorKind::UncloseLeftBracket => !closes_balanced(s) && exists|k: int|
            unmatched_close_at(s, k) && e.line == line_at(s, k) && e.col == column_at(s, k),
        TokenizerErrorKind::UncloseRightBracket => closes_balanced(s) && char_depth(s, s.len() as int)
            > 0 && exists|k: int|
            unmatched_open_at(s, k) && e.line == line_at(s, k) && e.col == column_at(s, k),
    }
}

/// Which bracket is unmatched.
#[derive(Debug, Clone, Copy, PartialEq, Eq, Structural)]
pub enum TokenizerErrorKind {
    /// A `]` with no open `[`.
    UncloseLeftBracket,
    /// A `[` that is never closed.
    UncloseRightBracket,
}

/// A structural error in source text, with the position of the offending bracket.
#[derive(Debug, Clone, Copy, PartialEq, Eq, Structural)]
pub struct TokenizerError {
    /// 1-based line.
    pub line: usize,
    /// 1-based column.
    pub col: usize,
    /// Which bracket is unmatched.
    pub kind: TokenizerErrorKind,
}

impl TokenizerErrorKind {
    /// The message for this kind of error.
    pub fn message(&self) -> (r: &'static str) {
        match self {
            TokenizerErrorKind::UncloseLeftBracket => "Unclose left bracket",
            TokenizerErrorKind::UncloseRightBracket => "Unclose right bracket",
        }
    }
}

/// Appending an instruction leaves the depths of the old prefixes alone.
proof fn lemma_depth_push_at(t: Seq<Token>, x: Token, k: int)
    requires
        k <= t.len(),
    ensures
        depth(t.push(x), k) == depth(t, k),
    decreases k,
{
    if k > 0 {
        lemma_depth_push_at(t, x, k - 1);
    }
}

proof fn lemma_depth_push(t: Seq<Token>, x: Token)
    ensures
        forall|k: int| k <= t.len() ==> #[trigger] depth(t.push(x), k) == depth(t, k),
        depth(t.push(x), t.len() as int + 1) == depth(t, t.len() as int) + loop_delta(x),
{
    assert forall|k: int| k <= t.len() implies #[trigger] depth(t.push(x), k) == depth(t, k) by {
        lemma_depth_push_at(t, x, k);
    }
    assert(t.push(x)[t.len() as int] == x);
    assert(depth(t.push(x), t.len() as int + 1) == depth(t.push(x), t.len() as int) + loop_delta(x));
}

/// Replacing an instruction by one of the same nesting effect keeps every depth.
proof fn lemma_depth_update_at(t: Seq<Token>, p: int, x: Token, k: int)
    requires
        0 <= p < t.len(),
        k <= t.len(),
        loop_delta(x) == loop_delta(t[p]),
    ensures
        depth(t.update(p, x), k) == depth(t, k),
    decreases k,
{
    if k > 0 {
        lemma_depth_update_at(t, p, x, k - 1);
    }
}

proof fn lemma_depth_update(t: Seq<Token>, p: int, x: Token)
    requires
        0 <= p < t.len(),
        loop_delta(x) == loop_delta(t[p]),
    ensures
        forall|k: int| k <= t.len() ==> #[trigger] depth(t.update(p, x), k) == depth(t, k),
{
    assert forall|k: int| k <= t.len() implies #[trigger] depth(t.update(p, x), k) == depth(t, k) by {
        lemma_depth_update_at(t, p, x, k);
    }
}

/// The resolver's state after `k` characters of `s`: `ir` spells the instruction
/// characters read so far, and `stk` holds one entry per open `[`, oldest first,
/// with its instruction index, its line and its column; `opens` holds the
/// character index of each.
spec fn scan_inv(
    s: Seq<char>,
    k: int,
    ir: Seq<Token>,
    stk: Seq<(u32, usize, usize)>,
    opens: Seq<int>,
) -> bool {
    &&& ir.len() == instruction_chars(s, k).len()
    &&& ir.len() <= k
    &&& forall|i: int| 0 <= i < ir.len() ==> spells(instruction_chars(s, k)[i], #[trigger] ir[i])
    &&& forall|m: int| 0 <= m <= k ==> #[trigger] char_depth(s, m) >= 0
    &&& stk.len() == opens.len()
    &&& stk.len() == char_depth(s, k)
    &&& depth(ir, ir.len() as int) == stk.len()
    &&& forall|m: int|
        0 <= m < stk.len() ==> {
            &&& 0 <= #[trigger] opens[m] < k
            &&& char_depth(s, opens[m]) == m
            &&& forall|q: int| opens[m] < q <= k ==> #[trigger] char_depth(s, q) > m
            &&& stk[m].1 == line_at(s, opens[m])
            &&& stk[m].2 == column_at(s, opens[m])
        }
    &&& forall|m: int|
        0 <= m < stk.len() ==> {
            &&& 0 <= (#[trigger] stk[m]).0 < ir.len()
            &&& ir[stk[m].0 as int] == Token::LoopStart(0)
            &&& depth(ir, stk[m].0 as int) == m
            &&& forall|q: int| stk[m].0 < q <= ir.len() ==> #[trigger] depth(ir, q) > m
        }
    &&& forall|i: int|
        0 <= i < ir.len() && #[trigger] ir[i] is LoopStart ==> start_resolved(ir, i) || (0
            <= depth(ir, i) < stk.len() && stk[depth(ir, i)].0 == i)
    &&& forall|j: int| 0 <= j < ir.len() && #[trigger] ir[j] is LoopEnd ==> end_resolved(ir, j)
}

/// Turns source text into instructions, one per instruction character, and
/// resolves each bracket pair into mutual jump targets.
#[verifier::rlimit(40)]
pub fn tokenizer(src: &str) -> (r: Result<Vec<Token>, TokenizerError>)
    requires
        src@.len() < u32::MAX,
    ensures
        r is Err <==> !source_balanced(src@),
        r is Err ==> tokenize_error(src@, r->Err_0),
        r is Ok ==> {
            let t = r->Ok_0@;
            let c = instruction_chars(src@, src@.len() as int);
            &&& t.len() == c.len()
            &&& t.len() <= src@.len()
            &&& forall|i: int| 0 <= i < t.len() ==> spells(c[i], #[trigger] t[i])
            &&& resolved_program(t)
        },
{
    let ghost s = src@;
    let mut ir: Vec<Token> = Vec::new();
    let mut stk: Vec<(u32, usize, usize)> = Vec::new();
    let ghost mut opens: Seq<int> = seq![];
    let mut line: usize = 1;
    let mut col: usize = 1;
    for chr in it: src.chars()
        invariant
            it.seq() == s,
            s == src@,
            s.len() < u32::MAX,
            line == line_at(s, it.index() as int),
            col == column_at(s, it.index() as int),
            line <= it.index() + 1,
            col <= it.index() + 1,
            scan_inv(s, it.index() as int, ir@, stk@, opens),
    {
        let ghost k = it.index() as int;
        let ghost ir0 = ir@;
        assert(chr == s[k]);
        if chr == '+' || chr == '-' || chr == '>' || chr == '<' || chr == ',' || chr == '.' {
            let x = if chr == '+' {
                Token::IncrementData(1)
            } else if chr == '-' {
                Token::DecrementData(1)
            } else if chr == '>' {
                Token::IncrementPointer(1)
            } else if chr == '<' {
                Token::DecrementPointer(1)
            } else if chr == ',' {
                Token::Input
            } else {
                Token::Output
            };
            ir.push(x);
            proof {
                lemma_depth_push(ir0, x);
                assert(instruction_chars(s, k + 1) == instruction_chars(s, k).push(chr));
            }
        } else if chr == '[' {
            let pc = ir.len() as u32;
            stk.push((pc, line, col));
            ir.push(Token::LoopStart(0));
            proof {
                lemma_depth_push(ir0, Token::LoopStart(0));
                assert(instruction_chars(s, k + 1) == instruction_chars(s, k).push(chr));
                opens = opens.push(k);
            }
        } else if chr == ']' {
            match stk.pop() {
                None => {
                    proof {
                        assert(unmatched_close_at(s, k));
                        assert(!closes_balanced(s)) by {
                            assert(char_depth(s, k + 1) < 0);
                        }
                    }
                    let e = TokenizerError {
                        line,
                        col,
                        kind: TokenizerErrorKind::UncloseLeftBracket,
                    };
                    return Err(e);
                },
                Some((org, _, _)) => {
                    let pc = ir.len() as u32;
                    ir.push(Token::LoopEnd(org));
                    let ghost ir1 = ir@;
                    ir.set(org as usize, Token::LoopStart(pc));
                    proof {
                        lemma_depth_push(ir0, Token::LoopEnd(org));
                        lemma_depth_update(ir1, org as int, Token::LoopStart(pc));
                        assert(instruction_chars(s, k + 1) == instruction_chars(s, k).push(chr));
                        opens = opens.drop_last();
                    }
                },
            }
        } else {
            proof {
                assert(instruction_chars(s, k + 1) == instruction_chars(s, k));
            }
        }
        if chr == '\n' {
            line = line + 1;
            col = 1;
        } else {
            col = col + 1;
        }
    }
    if stk.len() > 0 {
        let (_, line, col) = stk[0];
        assert(unmatched_open_at(s, opens[0]));
        return Err(TokenizerError { line, col, kind: TokenizerErrorKind::UncloseRightBracket });
    }
    assert(brackets_resolved(ir@));
    Ok(ir)
}

/// The merged instruction when `b` continues a run of `a`'s counted variant.
fn merge_tokens(a: Token, b: Token) -> (r: Option<Token>)
    ensures
        r == (if mergeable(a, b) {
            Some(merge(a, b))
        } else {
            None
        }),
{
    match (a, b) {
        (Token::IncrementData(x), Token::IncrementData(y)) => Some(Token::IncrementData(x.wrapping_add(y))),
        (Token::DecrementData(x), Token::DecrementData(y)) => Some(Token::DecrementData(x.wrapping_add(y))),
        (Token::IncrementPointer(x), Token::IncrementPointer(y)) => Some(
            Token::IncrementPointer(x.wrapping_add(y)),
        ),
        (Token::DecrementPointer(x), Token::DecrementPointer(y)) => Some(
            Token::DecrementPointer(x.wrapping_add(y)),
        ),
        _ => None,
    }
}

/// Loop nesting never drops below zero in a program whose loops are resolved.
proof fn lemma_depth_nonneg(t: Seq<Token>, k: int)
    requires
        brackets_resolved(t),
        0 <= k <= t.len(),
    ensures
        forall|m: int| 0 <= m <= k ==> #[trigger] depth(t, m) >= 0,
    decreases k,
{
    if k > 0 {
        lemma_depth_nonneg(t, k - 1);
        if t[k - 1] is LoopEnd {
            assert(end_resolved(t, k - 1));
            let i = target(t[k - 1]);
            assert(depth(t, i) >= 0);
            assert(depth(t, k) == depth(t, i));
        }
        assert(depth(t, k - 1) >= 0);
        assert(depth(t, k) == depth(t, k - 1) + loop_delta(t[k - 1]));
    }
}

/// The state of the peephole pass over `out`, the instructions written so far;
/// `stk` holds the index of each `LoopStart` of `out` still open, oldest first.
#[verifier::opaque]
spec fn fold_inv(out: Seq<Token>, stk: Seq<usize>) -> bool {
    &&& depth(out, out.len() as int) == stk.len()
    &&& forall|m: int|
        0 <= m < stk.len() ==> {
            &&& 0 <= #[trigger] stk[m] < out.len()
            &&& out[stk[m] as int] == Token::LoopStart(0)
            &&& depth(out, stk[m] as int) == m
            &&& forall|q: int| stk[m] < q <= out.len() ==> #[trigger] depth(out, q) > m
        }
    &&& forall|i: int|
        0 <= i < out.len() && #[trigger] out[i] is LoopStart ==> start_resolved(out, i) || (0
            <= depth(out, i) < stk.len() && stk[depth(out, i)] == i)
    &&& forall|j: int| 0 <= j < out.len() && #[trigger] out[j] is LoopEnd ==> end_resolved(out, j)
}

/// Writing an instruction that is not a loop keeps the state of the pass.
proof fn lemma_fold_push_plain(out: Seq<Token>, stk: Seq<usize>, x: Token)
    requires
        fold_inv(out, stk),
        loop_delta(x) == 0,
    ensures
        fold_inv(out.push(x), stk),
{
    reveal(fold_inv);
    lemma_depth_push(out, x);
    let o = out.push(x);
    assert forall|i: int| 0 <= i < o.len() && #[trigger] o[i] is LoopStart implies start_resolved(
        o,
        i,
    ) || (0 <= depth(o, i) < stk.len() && stk[depth(o, i)] == i) by {
        if start_resolved(out, i) {
            assert(start_resolved(o, i));
        }
    }
    assert forall|j: int| 0 <= j < o.len() && #[trigger] o[j] is LoopEnd implies end_resolved(
        o,
        j,
    ) by {
        assert(end_resolved(out, j));
    }
}

/// Writing a placeholder `LoopStart` opens a loop at the end of the stack.
proof fn lemma_fold_push_open(out: Seq<Token>, stk: Seq<usize>)
    requires
        fold_inv(out, stk),
        out.len() <= usize::MAX,
    ensures
        fold_inv(out.push(Token::LoopStart(0)), stk.push(out.len() as usize)),
{
    reveal(fold_inv);
    let x = Token::LoopStart(0);
    lemma_depth_push(out, x);
    let o = out.push(x);
    let st = stk.push(out.len() as usize);
    assert forall|i: int| 0 <= i < o.len() && #[trigger] o[i] is LoopStart implies start_resolved(
        o,
        i,
    ) || (0 <= depth(o, i) < st.len() && st[depth(o, i)] == i) by {
        if i < out.len() && start_resolved(out, i) {
            assert(start_resolved(o, i));
        }
    }
    assert forall|j: int| 0 <= j < o.len() && #[trigger] o[j] is LoopEnd implies end_resolved(
        o,
        j,
    ) by {
        assert(end_resolved(out, j));
    }
}

/// Writing the `LoopEnd` of the newest open loop, and patching its start to
/// point here, resolves that pair.
proof fn lemma_fold_push_close(out: Seq<Token>, stk: Seq<usize>)
    requires
        fold_inv(out, stk),
        stk.len() > 0,
        out.len() <= u32::MAX,
    ensures
        ({
            let org = stk.last();
            fold_inv(
                out.push(Token::LoopEnd(org as u32)).update(
                    org as int,
                    Token::LoopStart(out.len() as u32),
                ),
                stk.drop_last(),
            )
        }),
{
    reveal(fold_inv);
    let org = stk.last();
    let m = stk.len() - 1;
    assert(stk[m] == org);
    let o1 = out.push(Token::LoopEnd(org as u32));
    let o = o1.update(org as int, Token::LoopStart(out.len() as u32));
    let st = stk.drop_last();
    lemma_depth_push(out, Token::LoopEnd(org as u32));
    lemma_depth_update(o1, org as int, Token::LoopStart(out.len() as u32));
    assert(matched(o, org as int, out.len() as int));
    assert(start_resolved(o, org as int));
    assert(end_resolved(o, out.len() as int));
    assert forall|m2: int| 0 <= m2 < st.len() implies {
        &&& 0 <= #[trigger] st[m2] < o.len()
        &&& o[st[m2] as int] == Token::LoopStart(0)
        &&& depth(o, st[m2] as int) == m2
        &&& forall|q: int| st[m2] < q <= o.len() ==> #[trigger] depth(o, q) > m2
    } by {
        assert(stk[m2] == st[m2]);
        assert(depth(out, stk[m2] as int) == m2);
    }
    assert forall|i: int| 0 <= i < o.len() && #[trigger] o[i] is LoopStart implies start_resolved(
        o,
        i,
    ) || (0 <= depth(o, i) < st.len() && st[depth(o, i)] == i) by {
        if i != org {
            assert(out[i] is LoopStart);
            if start_resolved(out, i) {
                assert(start_resolved(o, i));
            } else {
                assert(depth(out, i) != m);
                assert(st[depth(o, i)] == stk[depth(out, i)]);
            }
        }
    }
    assert forall|j: int| 0 <= j < o.len() && #[trigger] o[j] is LoopEnd implies end_resolved(
        o,
        j,
    ) by {
        if j < out.len() {
            assert(end_resolved(out, j));
            assert(target(out[j]) != org);
        }
    }
}

/// With no loop left open, the pass has written a resolved program.
proof fn lemma_fold_done(out: Seq<Token>)
    requires
        fold_inv(out, seq![]),
    ensures
        resolved_program(out),
{
    reveal(fold_inv);
}

/// Folding keeps at least one instruction of a nonempty sequence, and never
/// adds any.
pub proof fn lemma_folded_len(t: Seq<Token>, n: int)
    requires
        0 <= n <= t.len(),
    ensures
        folded(t, n).len() <= n,
        n > 0 ==> folded(t, n).len() > 0,
    decreases n,
{
    if n > 0 {
        lemma_folded_len(t, n - 1);
    }
}

/// Merges the run of one counted variant that starts at `start`; returns the
/// merged instruction and the index just past the run.
fn fold_run(tokens: &Vec<Token>, start: usize, t0: Ghost<Seq<Token>>) -> (r: (Token, usize))
    requires
        start < tokens@.len(),
        tokens@.len() == t0@.len(),
        forall|k: int| start <= k < tokens@.len() ==> tokens@[k] == #[trigger] t0@[k],
        start == 0 || !mergeable(t0@[start - 1], t0@[start as int]),
        mergeable(t0@[start as int], t0@[start as int]),
    ensures
        start < r.1 <= tokens@.len(),
        folded(t0@, r.1 as int) == folded(t0@, start as int).push(r.0),
        depth(t0@, r.1 as int) == depth(t0@, start as int),
        r.1 == tokens@.len() || !mergeable(t0@[r.1 - 1], t0@[r.1 as int]),
        loop_delta(r.0) == 0,
{
    let len = tokens.len();
    let mut acc = tokens[start];
    let mut j: usize = start + 1;
    let mut extending = true;
    assert(folded(t0@, start + 1) == folded(t0@, start as int).push(acc));
    while extending && j < len
        invariant
            len == tokens@.len(),
            tokens@.len() == t0@.len(),
            forall|k: int| start <= k < tokens@.len() ==> tokens@[k] == #[trigger] t0@[k],
            start < j <= len,
            mergeable(t0@[j - 1], acc),
            depth(t0@, j as int) == depth(t0@, start as int),
            folded(t0@, j as int) == folded(t0@, start as int).push(acc),
            !extending ==> j < len && !mergeable(t0@[j - 1], t0@[j as int]),
        decreases len - j + (if extending {
            1int
        } else {
            0int
        }),
    {
        match merge_tokens(acc, tokens[j]) {
            Some(m) => {
                assert(folded(t0@, start as int).push(acc).drop_last() == folded(t0@, start as int));
                acc = m;
                j = j + 1;
            },
            None => {
                extending = false;
            },
        }
    }
    (acc, j)
}

/// Compacts a resolved program in place: each run of one counted variant
/// becomes a single counted instruction, and loop targets are re-derived for
/// the new indices.
#[verifier::loop_isolation(false)]
#[verifier::rlimit(80)]
pub fn optimize(tokens: &mut Vec<Token>)
    requires
        resolved_program(old(tokens)@),
    ensures
        resolved_program(final(tokens)@),
        final(tokens)@.len() == folded(old(tokens)@, old(tokens)@.len() as int).len(),
        forall|i: int|
            0 <= i < final(tokens)@.len() ==> same_op(
                #[trigger] final(tokens)@[i],
                folded(old(tokens)@, old(tokens)@.len() as int)[i],
            ),
{
    let ghost t0 = tokens@;
    let len = tokens.len();
    let mut observer: usize = 0;
    let mut writer: usize = 0;
    let mut stk: Vec<usize> = Vec::new();
    let ghost mut out: Seq<Token> = seq![];
    proof {
        lemma_depth_nonneg(t0, t0.len() as int);
        reveal(fold_inv);
    }
    while observer < len
        invariant
            tokens@.len() == len,
            len == t0.len(),
            writer <= observer <= len,
            out.len() == writer,
            forall|k: int| 0 <= k < writer ==> tokens@[k] == #[trigger] out[k],
            forall|k: int| observer <= k < len ==> tokens@[k] == #[trigger] t0[k],
            observer == 0 || observer == len || !mergeable(t0[observer - 1], t0[observer as int]),
            out.len() == folded(t0, observer as int).len(),
            forall|i: int|
                0 <= i < out.len() ==> same_op(#[trigger] out[i], folded(t0, observer as int)[i]),
            depth(t0, observer as int) == stk.len(),
            fold_inv(out, stk@),
        decreases len - observer,
    {
        let ghost out0 = out;
        let x = tokens[observer];
        match x {
            Token::Input | Token::Output => {
                tokens.set(writer, x);
                observer = observer + 1;
                writer = writer + 1;
                proof {
                    lemma_fold_push_plain(out0, stk@, x);
                    out = out.push(x);
                }
            },
            Token::LoopStart(_) => {
                assert(start_resolved(t0, observer as int));
                let ghost stk0 = stk@;
                stk.push(writer);
                tokens.set(writer, Token::LoopStart(0));
                observer = observer + 1;
                writer = writer + 1;
                proof {
                    lemma_fold_push_open(out0, stk0);
                    out = out.push(Token::LoopStart(0));
                }
            },
            Token::LoopEnd(_) => {
                assert(end_resolved(t0, observer as int));
                assert(depth(t0, observer + 1) >= 0);
                let ghost stk0 = stk@;
                let org = stk.pop().unwrap();
                tokens.set(writer, Token::LoopEnd(org as u32));
                tokens.set(org, Token::LoopStart(writer as u32));
                proof {
                    lemma_fold_push_close(out0, stk0);
                    out = out0.push(Token::LoopEnd(org as u32)).update(
                        org as int,
                        Token::LoopStart(writer as u32),
                    );
                }
                observer = observer + 1;
                writer = writer + 1;
            },
            _ => {
                let (acc, j) = fold_run(tokens, observer, Ghost(t0));
                tokens.set(writer, acc);
                observer = j;
                writer = writer + 1;
                proof {
                    lemma_fold_push_plain(out0, stk@, acc);
                    out = out.push(acc);
                }
            },
        }
    }
    tokens.truncate(writer);
    assert(tokens@ == out);
    proof {
        assert(stk@ == Seq::<usize>::empty());
        lemma_fold_done(out);
    }
}

} // verus!
