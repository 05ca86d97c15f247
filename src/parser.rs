//! The parser: binding-power (Pratt) parsing of a token sequence into a
//! prefix tree.
use vstd::prelude::*;
use vstd::string::StringExecFns;
use crate::lexer::{push_char, views, Lexeme, Token};

verus! {

broadcast use vstd::std_specs::vec::group_vec_axioms;

/// A prefix tree: a leaf, or a head with an ordered sequence of children.
pub enum S<T> {
    Atom(T),
    Cons(T, Vec<S<T>>),
}

/// The mathematical form of a prefix tree of strings.
pub enum Tree {
    Atom(Seq<char>),
    Cons(Seq<char>, Seq<Tree>),
}

/// The tree that a prefix tree of strings stands for.
pub open spec fn tree_of(t: S<String>) -> Tree
    decreases t,
{
    match t {
        S::Atom(a) => Tree::Atom(a@),
        S::Cons(h, kids) => Tree::Cons(
            h@,
            Seq::new(kids@.len(), |i: int| if 0 <= i < kids.len() { tree_of(kids[i]) } else { Tree::Atom(Seq::empty()) }),
        ),
    }
}

/// The fully bracketed prefix form of a tree: an atom is its text, a node
/// is `(head child1 child2 ...)`.
pub open spec fn display(t: Tree) -> Seq<char>
    decreases t,
{
    match t {
        Tree::Atom(a) => a,
        Tree::Cons(h, kids) => seq!['('] + h + display_kids(kids) + seq![')'],
    }
}

/// The prefix forms of `kids`, each after a space.
pub open spec fn display_kids(kids: Seq<Tree>) -> Seq<char>
    decreases kids,
{
    if kids.len() == 0 {
        Seq::empty()
    } else {
        display_kids(kids.drop_last()) + seq![' '] + display(kids.last())
    }
}

impl S<String> {
    /// The fully bracketed prefix form of the tree.
    pub fn to_string(&self) -> (r: String)
        ensures
            r@ == display(tree_of(*self)),
        decreases self,
    {
        match self {
            S::Atom(a) => a.clone(),
            S::Cons(h, kids) => {
                let ghost tk = tree_of(*self)->Cons_1;
                let mut out = single('(');
                out.append(h.as_str());
                let mut i: usize = 0;
                while i < kids.len()
                    invariant
                        i <= kids@.len(),
                        *self == S::Cons(*h, *kids),
                        tk.len() == kids@.len(),
                        forall|j: int| 0 <= j < kids@.len() ==> tk[j] == tree_of(#[trigger] kids@[j]),
                        out@ == seq!['('] + h@ + display_kids(tk.take(i as int)),
                    decreases kids@.len() - i,
                {
                    push_char(&mut out, ' ');
                    proof {
                        let kk = (*self)->Cons_1;
                        assert(decreases_to!(*self => kk));
                        vstd::std_specs::vec::axiom_vec_index_decreases(kk, i as int);
                        assert(decreases_to!(*self => kids[i as int]));
                    }
                    let k = kids[i].to_string();
                    out.append(k.as_str());
                    proof {
                        let pre = tk.take(i as int + 1);
                        assert(pre.drop_last() =~= tk.take(i as int));
                    }
                    i = i + 1;
                }
                assert(tk.take(i as int) =~= tk);
                push_char(&mut out, ')');
                out
            },
        }
    }
}

/// Why a token sequence is not one complete expression.
#[derive(PartialEq, Eq, Debug, Clone, Copy, Structural)]
pub enum ParseError {
    /// The tokens end where an operand is expected.
    UnexpectedEnd,
    /// The token at this index stands where it cannot.
    UnexpectedToken(usize),
    /// A bracket is left open, or one closes that was never opened.
    UnbalancedBracket,
}

/// How tightly a prefix operator binds its operand: tighter than any
/// binary operator.
pub const PREFIX_POWER: u8 = 7;

/// The left and right binding powers of a binary operator; a right power
/// one above the left makes the operator left-associative.
pub open spec fn infix_power(t: Lexeme) -> Option<(u8, u8)> {
    match t {
        Lexeme::Mult | Lexeme::Div => Some((5u8, 6u8)),
        Lexeme::Add | Lexeme::Sub => Some((3u8, 4u8)),
        Lexeme::And | Lexeme::Or => Some((1u8, 2u8)),
        _ => None,
    }
}

/// The text of an operator token.
pub open spec fn op_text(t: Lexeme) -> Seq<char> {
    match t {
        Lexeme::Add => seq!['+'],
        Lexeme::Sub => seq!['-'],
        Lexeme::Mult => seq!['*'],
        Lexeme::Div => seq!['\\'],
        Lexeme::Bang => seq!['!'],
        Lexeme::And => seq!['&'],
        Lexeme::Or => seq!['|'],
        _ => Seq::empty(),
    }
}

/// Whether no token is left at `p`: the sequence is over, or the end token
/// stands there.
pub open spec fn at_end(ts: Seq<Lexeme>, p: int) -> bool {
    p >= ts.len() || ts[p] is End
}

/// An operand starting at `p`: a literal, a prefix operator applied to the
/// operand after it, or a bracketed expression; with the position after it.
pub open spec fn parse_primary(ts: Seq<Lexeme>, p: int) -> Result<(Tree, int), ParseError>
    decreases ts.len() - p, 0nat,
{
    if p < 0 || at_end(ts, p) {
        Err(ParseError::UnexpectedEnd)
    } else {
        match ts[p] {
            Lexeme::Int(s) => Ok((Tree::Atom(s), p + 1)),
            Lexeme::Alpha(s) => Ok((Tree::Atom(s), p + 1)),
            Lexeme::Sub | Lexeme::Bang => match parse_bp(ts, p + 1, PREFIX_POWER) {
                Ok((e, q)) => Ok((Tree::Cons(op_text(ts[p]), seq![e]), q)),
                Err(err) => Err(err),
            },
            Lexeme::LBracket => match parse_bp(ts, p + 1, 0) {
                Ok((e, q)) => if 0 <= q < ts.len() && ts[q] is RBracket {
                    Ok((e, q + 1))
                } else {
                    Err(ParseError::UnbalancedBracket)
                },
                Err(err) => Err(err),
            },
            _ => Err(ParseError::UnexpectedToken(p as usize)),
        }
    }
}

/// An expression starting at `p` whose binary operators all bind at least
/// as tightly as `min`, with the position after it.
pub open spec fn parse_bp(ts: Seq<Lexeme>, p: int, min: u8) -> Result<(Tree, int), ParseError>
    decreases ts.len() - p, 1nat,
{
    if p < 0 || p > ts.len() {
        Err(ParseError::UnexpectedEnd)
    } else {
        match parse_primary(ts, p) {
            Ok((lhs, q)) => if p < q <= ts.len() {
                parse_infix(ts, lhs, q, min)
            } else {
                Err(ParseError::UnexpectedEnd)
            },
            Err(err) => Err(err),
        }
    }
}

/// Extends `lhs`, which ends before `q`, by the binary operators from `q`
/// on that bind at least as tightly as `min`.
pub open spec fn parse_infix(ts: Seq<Lexeme>, lhs: Tree, q: int, min: u8) -> Result<(Tree, int), ParseError>
    decreases ts.len() - q, 2nat,
{
    if q < 0 || at_end(ts, q) || ts[q] is RBracket {
        Ok((lhs, q))
    } else {
        match infix_power(ts[q]) {
            None => Err(ParseError::UnexpectedToken(q as usize)),
            Some((l, r)) => if l < min {
                Ok((lhs, q))
            } else {
                match parse_bp(ts, q + 1, r) {
                    Ok((rhs, q2)) => if q + 1 < q2 <= ts.len() {
                        parse_infix(ts, Tree::Cons(op_text(ts[q]), seq![lhs, rhs]), q2, min)
                    } else {
                        Err(ParseError::UnexpectedEnd)
                    },
                    Err(err) => Err(err),
                }
            },
        }
    }
}

/// The tree of a whole token sequence.
pub open spec fn parse_tree(ts: Seq<Lexeme>) -> Result<Tree, ParseError> {
    match parse_bp(ts, 0, 0) {
        Ok((t, q)) => if at_end(ts, q) {
            Ok(t)
        } else {
            Err(ParseError::UnbalancedBracket)
        },
        Err(err) => Err(err),
    }
}

/// The head of a node with one child: a prefix operator.
pub open spec fn unary_head(h: Seq<char>) -> bool {
    h == seq!['-'] || h == seq!['!']
}

/// The head of a node with two children: a binary operator.
pub open spec fn binary_head(h: Seq<char>) -> bool {
    h == seq!['+'] || h == seq!['-'] || h == seq!['*'] || h == seq!['\\'] || h == seq!['&'] || h
        == seq!['|']
}

/// Whether every node of `t` has as many children as its operator takes.
pub open spec fn arity_ok(t: Tree) -> bool
    decreases t,
{
    match t {
        Tree::Atom(_) => true,
        Tree::Cons(h, kids) => if kids.len() == 1 {
            unary_head(h) && arity_ok(kids[0])
        } else if kids.len() == 2 {
            binary_head(h) && arity_ok(kids[0]) && arity_ok(kids[1])
        } else {
            false
        },
    }
}

proof fn lemma_primary_shape(ts: Seq<Lexeme>, p: int)
    ensures
        parse_primary(ts, p) matches Ok((t, q)) ==> p < q <= ts.len() && arity_ok(t),
    decreases ts.len() - p, 0nat,
{
    if !(p < 0 || at_end(ts, p)) {
        match ts[p] {
            Lexeme::Sub | Lexeme::Bang => {
                lemma_bp_shape(ts, p + 1, PREFIX_POWER);
                if let Ok((e, q)) = parse_bp(ts, p + 1, PREFIX_POWER) {
                    let t = Tree::Cons(op_text(ts[p]), seq![e]);
                    assert(t->Cons_1[0] == e);
                }
            },
            Lexeme::LBracket => {
                lemma_bp_shape(ts, p + 1, 0);
            },
            _ => {},
        }
    }
}

proof fn lemma_bp_shape(ts: Seq<Lexeme>, p: int, min: u8)
    ensures
        parse_bp(ts, p, min) matches Ok((t, q)) ==> p < q <= ts.len() && arity_ok(t),
    decreases ts.len() - p, 1nat,
{
    if !(p < 0 || p > ts.len()) {
        lemma_primary_shape(ts, p);
        if let Ok((lhs, q)) = parse_primary(ts, p) {
            if p < q <= ts.len() {
                lemma_infix_shape(ts, lhs, q, min);
            }
        }
    }
}

proof fn lemma_infix_shape(ts: Seq<Lexeme>, lhs: Tree, q: int, min: u8)
    requires
        arity_ok(lhs),
        q <= ts.len(),
    ensures
        parse_infix(ts, lhs, q, min) matches Ok((t, r)) ==> q <= r <= ts.len() && arity_ok(t),
    decreases ts.len() - q, 2nat,
{
    if !(q < 0 || at_end(ts, q) || ts[q] is RBracket) {
        if let Some((l, r)) = infix_power(ts[q]) {
            if l >= min {
                lemma_bp_shape(ts, q + 1, r);
                if let Ok((rhs, q2)) = parse_bp(ts, q + 1, r) {
                    if q + 1 < q2 <= ts.len() {
                        let node = Tree::Cons(op_text(ts[q]), seq![lhs, rhs]);
                        assert(node->Cons_1[0] == lhs && node->Cons_1[1] == rhs);
                        lemma_infix_shape(ts, node, q2, min);
                    }
                }
            }
        }
    }
}

/// Every node of a parsed tree has as many children as its operator takes:
/// two for a binary operator, one for a prefix operator.
pub proof fn lemma_parse_shape(ts: Seq<Lexeme>)
    ensures
        parse_tree(ts) matches Ok(t) ==> arity_ok(t),
{
    lemma_bp_shape(ts, 0, 0);
}

/// The operands and operators of a tree, in the order in which they stand
/// in infix form: a prefix operator before its operand, a binary one
/// between its operands.
pub open spec fn infix_items(t: Tree) -> Seq<Seq<char>>
    decreases t,
{
    match t {
        Tree::Atom(a) => seq![a],
        Tree::Cons(h, kids) => if kids.len() == 1 {
            seq![h] + infix_items(kids[0])
        } else if kids.len() == 2 {
            infix_items(kids[0]) + seq![h] + infix_items(kids[1])
        } else {
            seq![h]
        },
    }
}

/// The text of an operand or operator token.
pub open spec fn item_text(t: Lexeme) -> Seq<char> {
    if literal(t) {
        literal_text(t)
    } else {
        op_text(t)
    }
}

/// The texts of the tokens of `ts`, in order, brackets left out.
pub open spec fn token_items(ts: Seq<Lexeme>) -> Seq<Seq<char>>
    decreases ts.len(),
{
    if ts.len() == 0 {
        Seq::empty()
    } else if ts.last() is LBracket || ts.last() is RBracket {
        token_items(ts.drop_last())
    } else {
        token_items(ts.drop_last()).push(item_text(ts.last()))
    }
}

proof fn lemma_token_items_split(ts: Seq<Lexeme>, a: int, b: int, c: int)
    requires
        0 <= a <= b <= c <= ts.len(),
    ensures
        token_items(ts.subrange(a, c)) == token_items(ts.subrange(a, b)) + token_items(
            ts.subrange(b, c),
        ),
    decreases c - b,
{
    if c == b {
        assert(ts.subrange(b, c) =~= Seq::<Lexeme>::empty());
        assert(token_items(ts.subrange(a, b)) + Seq::<Seq<char>>::empty() =~= token_items(
            ts.subrange(a, b),
        ));
    } else {
        lemma_token_items_split(ts, a, b, c - 1);
        assert(ts.subrange(a, c).drop_last() =~= ts.subrange(a, c - 1));
        assert(ts.subrange(b, c).drop_last() =~= ts.subrange(b, c - 1));
        let x = token_items(ts.subrange(a, b));
        let y = token_items(ts.subrange(b, c - 1));
        assert((x + y).push(item_text(ts[c - 1])) =~= x + y.push(item_text(ts[c - 1])));
    }
}

proof fn lemma_token_items_one(ts: Seq<Lexeme>, p: int)
    requires
        0 <= p < ts.len(),
    ensures
        token_items(ts.subrange(p, p + 1)) == if ts[p] is LBracket || ts[p] is RBracket {
            Seq::<Seq<char>>::empty()
        } else {
            seq![item_text(ts[p])]
        },
{
    let one = ts.subrange(p, p + 1);
    assert(one.drop_last() =~= Seq::<Lexeme>::empty());
    assert(one.last() == ts[p]);
    assert(token_items(one.drop_last()) == Seq::<Seq<char>>::empty());
    assert(Seq::<Seq<char>>::empty().push(item_text(ts[p])) =~= seq![item_text(ts[p])]);
}

proof fn lemma_primary_items(ts: Seq<Lexeme>, p: int)
    ensures
        parse_primary(ts, p) matches Ok((t, q)) ==> infix_items(t) == token_items(
            ts.subrange(p, q),
        ),
    decreases ts.len() - p, 0nat,
{
    lemma_primary_shape(ts, p);
    if !(p < 0 || at_end(ts, p)) {
        match ts[p] {
            Lexeme::Int(_) | Lexeme::Alpha(_) => {
                lemma_token_items_one(ts, p);
            },
            Lexeme::Sub | Lexeme::Bang => {
                lemma_bp_items(ts, p + 1, PREFIX_POWER);
                lemma_bp_shape(ts, p + 1, PREFIX_POWER);
                if let Ok((e, q)) = parse_bp(ts, p + 1, PREFIX_POWER) {
                    lemma_token_items_one(ts, p);
                    lemma_token_items_split(ts, p, p + 1, q);
                    let t = Tree::Cons(op_text(ts[p]), seq![e]);
                    assert(t->Cons_1[0] == e);
                }
            },
            Lexeme::LBracket => {
                lemma_bp_items(ts, p + 1, 0);
                lemma_bp_shape(ts, p + 1, 0);
                if let Ok((e, q)) = parse_bp(ts, p + 1, 0) {
                    if 0 <= q < ts.len() && ts[q] is RBracket {
                        lemma_token_items_one(ts, p);
                        lemma_token_items_one(ts, q);
                        lemma_token_items_split(ts, p, p + 1, q);
                        lemma_token_items_split(ts, p, q, q + 1);
                        assert(Seq::<Seq<char>>::empty() + token_items(ts.subrange(p + 1, q))
                            =~= token_items(ts.subrange(p + 1, q)));
                        assert(token_items(ts.subrange(p + 1, q)) + Seq::<Seq<char>>::empty()
                            =~= token_items(ts.subrange(p + 1, q)));
                    }
                }
            },
            _ => {},
        }
    }
}

proof fn lemma_bp_items(ts: Seq<Lexeme>, p: int, min: u8)
    ensures
        parse_bp(ts, p, min) matches Ok((t, q)) ==> infix_items(t) == token_items(
            ts.subrange(p, q),
        ),
    decreases ts.len() - p, 1nat,
{
    if !(p < 0 || p > ts.len()) {
        lemma_primary_items(ts, p);
        lemma_primary_shape(ts, p);
        if let Ok((lhs, q)) = parse_primary(ts, p) {
            if p < q <= ts.len() {
                lemma_infix_items(ts, p, lhs, q, min);
            }
        }
    }
}

proof fn lemma_infix_items(ts: Seq<Lexeme>, p: int, lhs: Tree, q: int, min: u8)
    requires
        0 <= p <= q <= ts.len(),
        infix_items(lhs) == token_items(ts.subrange(p, q)),
    ensures
        parse_infix(ts, lhs, q, min) matches Ok((t, r)) ==> infix_items(t) == token_items(
            ts.subrange(p, r),
        ),
    decreases ts.len() - q, 2nat,
{
    if !(q < 0 || at_end(ts, q) || ts[q] is RBracket) {
        if let Some((l, r)) = infix_power(ts[q]) {
            if l >= min {
                lemma_bp_items(ts, q + 1, r);
                lemma_bp_shape(ts, q + 1, r);
                if let Ok((rhs, q2)) = parse_bp(ts, q + 1, r) {
                    if q + 1 < q2 <= ts.len() {
                        let node = Tree::Cons(op_text(ts[q]), seq![lhs, rhs]);
                        assert(node->Cons_1[0] == lhs && node->Cons_1[1] == rhs);
                        lemma_token_items_one(ts, q);
                        lemma_token_items_split(ts, p, q, q + 1);
                        lemma_token_items_split(ts, p, q + 1, q2);
                        lemma_infix_items(ts, p, node, q2, min);
                    }
                }
            }
        }
    }
}

/// Parsing keeps every operand and operator, in the order of the input:
/// read in infix order, the tree holds the texts of the tokens before the
/// end, brackets left out.
pub proof fn lemma_parse_keeps_order(ts: Seq<Lexeme>)
    ensures
        parse_tree(ts) matches Ok(t) ==> exists|q: int|
            0 < q <= ts.len() && at_end(ts, q) && #[trigger] infix_items(t) == token_items(
                ts.subrange(0, q),
            ),
{
    lemma_bp_items(ts, 0, 0);
    lemma_bp_shape(ts, 0, 0);
}

/// The binding power of a binary operator's text.
pub open spec fn head_power(h: Seq<char>) -> int {
    let c = if h.len() > 0 {
        h[0]
    } else {
        ' '
    };
    if c == '*' || c == '\\' {
        5
    } else if c == '+' || c == '-' {
        3
    } else {
        1
    }
}

/// How tightly the root of a tree binds: an atom most, then a prefix
/// operator, then the binary operator at the root.
pub open spec fn tree_power(t: Tree) -> int {
    match t {
        Tree::Atom(_) => 8,
        Tree::Cons(h, kids) => if kids.len() == 1 {
            PREFIX_POWER as int
        } else {
            head_power(h)
        },
    }
}

/// Whether every node of `t` binds its children as binding powers demand:
/// the operand of a prefix operator is an atom or a prefix node; the left
/// child of a binary node binds at least as tightly as it, the right child
/// more tightly.
pub open spec fn powers_ok(t: Tree) -> bool
    decreases t,
{
    match t {
        Tree::Atom(_) => true,
        Tree::Cons(h, kids) => if kids.len() == 1 {
            tree_power(kids[0]) >= PREFIX_POWER && powers_ok(kids[0])
        } else if kids.len() == 2 {
            tree_power(kids[0]) >= head_power(h) && tree_power(kids[1]) > head_power(h)
                && powers_ok(kids[0]) && powers_ok(kids[1])
        } else {
            true
        },
    }
}

/// Whether no bracket stands in `ts`.
pub open spec fn bracket_free(ts: Seq<Lexeme>) -> bool {
    forall|i: int| 0 <= i < ts.len() ==> !(#[trigger] ts[i] is LBracket || ts[i] is RBracket)
}

/// Whether parsing at binding power `min` stops at `q`: the tokens end, or
/// a bracket closes, or a binary operator binds less tightly than `min`.
pub open spec fn stops_at(ts: Seq<Lexeme>, q: int, min: u8) -> bool {
    at_end(ts, q) || ts[q] is RBracket || (infix_power(ts[q]) matches Some((l, _)) && l < min)
}

/// Whether a tree may take the binary operator at `q` as its parent.
pub open spec fn may_extend(ts: Seq<Lexeme>, t: Tree, q: int) -> bool {
    !at_end(ts, q) ==> (infix_power(ts[q]) matches Some((l, _)) ==> tree_power(t) >= l)
}

proof fn lemma_primary_powers(ts: Seq<Lexeme>, p: int)
    requires
        bracket_free(ts),
    ensures
        parse_primary(ts, p) matches Ok((t, q)) ==> powers_ok(t) && tree_power(t) >= PREFIX_POWER,
    decreases ts.len() - p, 0nat,
{
    if !(p < 0 || at_end(ts, p)) {
        match ts[p] {
            Lexeme::Sub | Lexeme::Bang => {
                lemma_bp_powers(ts, p + 1, PREFIX_POWER);
                if let Ok((e, q)) = parse_bp(ts, p + 1, PREFIX_POWER) {
                    let t = Tree::Cons(op_text(ts[p]), seq![e]);
                    assert(t->Cons_1[0] == e);
                }
            },
            _ => {},
        }
    }
}

proof fn lemma_bp_powers(ts: Seq<Lexeme>, p: int, min: u8)
    requires
        bracket_free(ts),
        min <= PREFIX_POWER,
    ensures
        parse_bp(ts, p, min) matches Ok((t, q)) ==> powers_ok(t) && tree_power(t) >= min
            && stops_at(ts, q, min),
    decreases ts.len() - p, 1nat,
{
    if !(p < 0 || p > ts.len()) {
        lemma_primary_powers(ts, p);
        if let Ok((lhs, q)) = parse_primary(ts, p) {
            if p < q <= ts.len() {
                lemma_infix_powers(ts, lhs, q, min);
            }
        }
    }
}

proof fn lemma_infix_powers(ts: Seq<Lexeme>, lhs: Tree, q: int, min: u8)
    requires
        bracket_free(ts),
        min <= PREFIX_POWER,
        0 <= q,
        powers_ok(lhs),
        tree_power(lhs) >= min,
        may_extend(ts, lhs, q),
    ensures
        parse_infix(ts, lhs, q, min) matches Ok((t, r)) ==> powers_ok(t) && tree_power(t) >= min
            && stops_at(ts, r, min),
    decreases ts.len() - q, 2nat,
{
    if !(q < 0 || at_end(ts, q) || ts[q] is RBracket) {
        if let Some((l, r)) = infix_power(ts[q]) {
            if l >= min {
                lemma_bp_powers(ts, q + 1, r);
                if let Ok((rhs, q2)) = parse_bp(ts, q + 1, r) {
                    if q + 1 < q2 <= ts.len() {
                        let node = Tree::Cons(op_text(ts[q]), seq![lhs, rhs]);
                        assert(node->Cons_1[0] == lhs && node->Cons_1[1] == rhs);
                        assert(head_power(op_text(ts[q])) == l);
                        if !at_end(ts, q2) {
                            assert(!(ts[q2] is RBracket));
                        }
                        lemma_infix_powers(ts, node, q2, min);
                    }
                }
            }
        }
    }
}

/// In a tree parsed from tokens without brackets, every node binds its
/// children as the binding powers demand (see `powers_ok`).
pub proof fn lemma_parse_powers(ts: Seq<Lexeme>)
    requires
        bracket_free(ts),
    ensures
        parse_tree(ts) matches Ok(t) ==> powers_ok(t),
{
    lemma_bp_powers(ts, 0, 0);
}

/// A literal token: an integer or an alphabetic run.
pub open spec fn literal(t: Lexeme) -> bool {
    t is Int || t is Alpha
}

/// The characters of a literal token.
pub open spec fn literal_text(t: Lexeme) -> Seq<char> {
    match t {
        Lexeme::Int(s) => s,
        Lexeme::Alpha(s) => s,
        _ => Seq::empty(),
    }
}

/// The tree of `x o1 y o2 z`: the operator that binds more tightly takes
/// the middle operand, and with equal binding the left one does.
pub open spec fn nested_pair(x: Lexeme, o1: Lexeme, y: Lexeme, o2: Lexeme, z: Lexeme) -> Tree {
    let ax = Tree::Atom(literal_text(x));
    let ay = Tree::Atom(literal_text(y));
    let az = Tree::Atom(literal_text(z));
    if infix_power(o2)->Some_0.0 > infix_power(o1)->Some_0.0 {
        Tree::Cons(op_text(o1), seq![ax, Tree::Cons(op_text(o2), seq![ay, az])])
    } else {
        Tree::Cons(op_text(o2), seq![Tree::Cons(op_text(o1), seq![ax, ay]), az])
    }
}

/// Of two binary operators between three literals, the one of higher
/// binding power is applied first; of two with equal power, the left one
/// (all binary operators associate to the left).
pub proof fn lemma_two_operators_nest(x: Lexeme, o1: Lexeme, y: Lexeme, o2: Lexeme, z: Lexeme)
    requires
        literal(x),
        literal(y),
        literal(z),
        infix_power(o1) is Some,
        infix_power(o2) is Some,
    ensures
        parse_tree(seq![x, o1, y, o2, z]) == Ok::<Tree, ParseError>(nested_pair(x, o1, y, o2, z)),
{
    let ts = seq![x, o1, y, o2, z];
    let ax = Tree::Atom(literal_text(x));
    let ay = Tree::Atom(literal_text(y));
    let az = Tree::Atom(literal_text(z));
    let (l1, r1) = infix_power(o1)->Some_0;
    let (l2, r2) = infix_power(o2)->Some_0;
    assert(parse_primary(ts, 0) == Ok::<(Tree, int), ParseError>((ax, 1)));
    assert(parse_primary(ts, 2) == Ok::<(Tree, int), ParseError>((ay, 3)));
    assert(parse_primary(ts, 4) == Ok::<(Tree, int), ParseError>((az, 5)));
    assert(parse_infix(ts, az, 5, r2) == Ok::<(Tree, int), ParseError>((az, 5)));
    assert(parse_bp(ts, 4, r2) == Ok::<(Tree, int), ParseError>((az, 5)));
    if l2 >= r1 {
        let inner = Tree::Cons(op_text(o2), seq![ay, az]);
        assert(parse_infix(ts, inner, 5, r1) == Ok::<(Tree, int), ParseError>((inner, 5)));
        assert(parse_infix(ts, ay, 3, r1) == Ok::<(Tree, int), ParseError>((inner, 5)));
        assert(parse_bp(ts, 2, r1) == Ok::<(Tree, int), ParseError>((inner, 5)));
        let outer = Tree::Cons(op_text(o1), seq![ax, inner]);
        assert(parse_infix(ts, outer, 5, 0) == Ok::<(Tree, int), ParseError>((outer, 5)));
        assert(parse_infix(ts, ax, 1, 0) == Ok::<(Tree, int), ParseError>((outer, 5)));
    } else {
        assert(parse_infix(ts, ay, 3, r1) == Ok::<(Tree, int), ParseError>((ay, 3)));
        assert(parse_bp(ts, 2, r1) == Ok::<(Tree, int), ParseError>((ay, 3)));
        let inner = Tree::Cons(op_text(o1), seq![ax, ay]);
        let outer = Tree::Cons(op_text(o2), seq![inner, az]);
        assert(parse_infix(ts, outer, 5, 0) == Ok::<(Tree, int), ParseError>((outer, 5)));
        assert(parse_infix(ts, inner, 3, 0) == Ok::<(Tree, int), ParseError>((outer, 5)));
        assert(parse_infix(ts, ax, 1, 0) == Ok::<(Tree, int), ParseError>((outer, 5)));
    }
    assert(parse_bp(ts, 0, 0) == Ok::<(Tree, int), ParseError>((nested_pair(x, o1, y, o2, z), 5)));
}

/// Whether an executable parse result is the one given by the spec.
pub open spec fn agrees(r: Result<(S<String>, usize), ParseError>, sp: Result<(Tree, int), ParseError>) -> bool {
    match sp {
        Ok((t, q)) => r is Ok && tree_of(r->Ok_0.0) == t && r->Ok_0.1 == q,
        Err(e) => r == Err::<(S<String>, usize), ParseError>(e),
    }
}

/// A one-character string.
fn single(c: char) -> (r: String)
    ensures
        r@ == seq![c],
{
    let mut r = String::new();
    push_char(&mut r, c);
    r
}

/// The text of an operator token.
fn op_string(t: &Token) -> (r: String)
    ensures
        r@ == op_text(t@),
{
    match t {
        Token::ADD => single('+'),
        Token::SUB => single('-'),
        Token::MULT => single('*'),
        Token::DIV => single('\\'),
        Token::BANG => single('!'),
        Token::AND => single('&'),
        Token::OR => single('|'),
        _ => String::new(),
    }
}

/// The left and right binding powers of a binary operator token.
fn infix_power_of(t: &Token) -> (r: Option<(u8, u8)>)
    ensures
        r == infix_power(t@),
{
    match t {
        Token::MULT | Token::DIV => Some((5, 6)),
        Token::ADD | Token::SUB => Some((3, 4)),
        Token::AND | Token::OR => Some((1, 2)),
        _ => None,
    }
}

/// Whether no token is left at `p`.
fn is_at_end(tokens: &Vec<Token>, p: usize) -> (r: bool)
    ensures
        r == at_end(views(tokens@), p as int),
        !r ==> p < tokens@.len() && !(tokens@[p as int] is END),
{
    p >= tokens.len() || matches!(tokens[p], Token::END)
}

/// Parses an operand starting at `p`.
fn parse_primary_at(tokens: &Vec<Token>, p: usize) -> (r: Result<(S<String>, usize), ParseError>)
    ensures
        agrees(r, parse_primary(views(tokens@), p as int)),
    decreases tokens@.len() - p, 0nat,
{
    let ghost ts = views(tokens@);
    let n = tokens.len();
    if is_at_end(tokens, p) {
        return Err(ParseError::UnexpectedEnd);
    }
    match &tokens[p] {
        Token::INT(s) => Ok((S::Atom(s.clone()), p + 1)),
        Token::ALPHA(s) => Ok((S::Atom(s.clone()), p + 1)),
        Token::SUB | Token::BANG => {
            let head = op_string(&tokens[p]);
            match expr_bp(tokens, p + 1, PREFIX_POWER) {
                Ok((e, q)) => {
                    let ghost te = tree_of(e);
                    let kids = vec![e];
                    let r = S::Cons(head, kids);
                    assert(tree_of(r) == Tree::Cons(op_text(ts[p as int]), seq![te])) by {
                        assert(tree_of(r)->Cons_1 =~= seq![te]);
                    }
                    Ok((r, q))
                },
                Err(err) => Err(err),
            }
        },
        Token::LBRACKET => {
            match expr_bp(tokens, p + 1, 0) {
                Ok((e, q)) => {
                    if q < n && matches!(tokens[q], Token::RBRACKET) {
                        Ok((e, q + 1))
                    } else {
                        Err(ParseError::UnbalancedBracket)
                    }
                },
                Err(err) => Err(err),
            }
        },
        _ => Err(ParseError::UnexpectedToken(p)),
    }
}

/// Parses an expression starting at `p` whose binary operators all bind at
/// least as tightly as `min`.
fn expr_bp(tokens: &Vec<Token>, p: usize, min: u8) -> (r: Result<(S<String>, usize), ParseError>)
    requires
        p <= tokens@.len(),
    ensures
        agrees(r, parse_bp(views(tokens@), p as int, min)),
    decreases tokens@.len() - p, 1nat,
{
    proof {
        lemma_primary_shape(views(tokens@), p as int);
    }
    match parse_primary_at(tokens, p) {
        Ok((lhs, q)) => parse_infix_at(tokens, lhs, q, min),
        Err(err) => Err(err),
    }
}

/// Extends `lhs` by the binary operators from `q` on that bind at least as
/// tightly as `min`.
fn parse_infix_at(tokens: &Vec<Token>, lhs: S<String>, q: usize, min: u8) -> (r: Result<(S<String>, usize), ParseError>)
    requires
        q <= tokens@.len(),
    ensures
        agrees(r, parse_infix(views(tokens@), tree_of(lhs), q as int, min)),
    decreases tokens@.len() - q, 2nat,
{
    let ghost ts = views(tokens@);
    let n = tokens.len();
    if q >= n || matches!(tokens[q], Token::END) || matches!(tokens[q], Token::RBRACKET) {
        return Ok((lhs, q));
    }
    match infix_power_of(&tokens[q]) {
        None => Err(ParseError::UnexpectedToken(q)),
        Some((l, rp)) => {
            if l < min {
                Ok((lhs, q))
            } else {
                proof {
                    lemma_bp_shape(ts, q + 1, rp);
                }
                match expr_bp(tokens, q + 1, rp) {
                    Ok((rhs, q2)) => {
                        let ghost tl = tree_of(lhs);
                        let ghost tr = tree_of(rhs);
                        let head = op_string(&tokens[q]);
                        let kids = vec![lhs, rhs];
                        let node = S::Cons(head, kids);
                        assert(tree_of(node) == Tree::Cons(op_text(ts[q as int]), seq![tl, tr])) by {
                            assert(tree_of(node)->Cons_1 =~= seq![tl, tr]);
                        }
                        parse_infix_at(tokens, node, q2, min)
                    },
                    Err(err) => Err(err),
                }
            }
        },
    }
}

/// Parses a whole token sequence into one prefix tree.
pub fn parse_expr(tokens: Vec<Token>) -> (r: Result<S<String>, ParseError>)
    ensures
        match parse_tree(views(tokens@)) {
            Ok(t) => r is Ok && tree_of(r->Ok_0) == t,
            Err(e) => r == Err::<S<String>, ParseError>(e),
        },
{
    match expr_bp(&tokens, 0, 0) {
        Ok((t, q)) => {
            if is_at_end(&tokens, q) {
                Ok(t)
            } else {
                Err(ParseError::UnbalancedBracket)
            }
        },
        Err(err) => Err(err),
    }
}

} // verus!
