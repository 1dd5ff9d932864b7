//! The tree pretty-printer: anything exposing a one-line label and an
//! ordered child list renders as indented box-drawing lines, one node per
//! line, in a pre-order depth-first traversal. A node's label is prefixed
//! with a corner glyph when it is the last sibling and a tee otherwise, and
//! a child's indent column continues its parent's with a vertical bar or a
//! blank gap.

use vstd::prelude::*;
use crate::lexer::LexerToken;
use crate::parser::{Expression, SyntaxTree};
use crate::selector::SelectorType;
use crate::text::{i64_to_string, int_text, push_char};

verus! {

/// A rendering node: a one-line label plus fully rendered children.
pub struct RenderNode {
    pub label: String,
    pub children: Vec<RenderNode>,
}

/// The mathematical shape of a `RenderNode`.
pub struct RenderNodeModel {
    pub label: Seq<char>,
    pub children: Seq<RenderNodeModel>,
}

pub open spec fn render_node_view(n: RenderNode) -> RenderNodeModel
    decreases n, 0int,
{
    RenderNodeModel { label: n.label@, children: render_nodes_view(n.children@) }
}

pub open spec fn render_nodes_view(cs: Seq<RenderNode>) -> Seq<RenderNodeModel>
    decreases cs, 0int,
{
    if cs.len() == 0 {
        Seq::empty()
    } else {
        seq![render_node_view(cs[0])] + render_nodes_view(cs.drop_first())
    }
}

impl View for RenderNode {
    type V = RenderNodeModel;

    open spec fn view(&self) -> RenderNodeModel {
        render_node_view(*self)
    }
}

/// The indent column a node passes to its children: a vertical bar when the
/// node has later siblings, a three-space gap when it is the last one.
pub open spec fn child_indent(indent: Seq<char>, is_last: bool) -> Seq<char> {
    indent + (if is_last {
        "   "@
    } else {
        "│  "@
    })
}

/// One rendered node: its glyph-prefixed label line, then its rendered
/// children.
pub open spec fn spec_render_node(n: RenderNodeModel, indent: Seq<char>, is_last: bool) -> Seq<
    char,
>
    decreases n, 0int,
{
    indent + (if is_last {
        "└──"@
    } else {
        "├──"@
    }) + n.label + seq!['\n'] + spec_render_list(n.children, child_indent(indent, is_last))
}

/// A rendered child list: the last child gets the corner glyph.
pub open spec fn spec_render_list(cs: Seq<RenderNodeModel>, indent: Seq<char>) -> Seq<char>
    decreases cs, 1int,
{
    if cs.len() == 0 {
        Seq::empty()
    } else {
        spec_render_node(cs[0], indent, cs.len() == 1) + spec_render_list(
            cs.drop_first(),
            indent,
        )
    }
}

/// Anything that can be pretty-printed: a one-line label and an ordered,
/// possibly empty list of rendered children.
pub trait PrettyPrintable {
    /// The node's mathematical rendering shape.
    spec fn spec_render(&self) -> RenderNodeModel;

    /// The node's one-line label.
    fn stringify(&self) -> (r: String)
        ensures
            r@ == self.spec_render().label,
    ;

    /// The node's rendered children, in order.
    fn get_children(&self) -> (r: Vec<RenderNode>)
        ensures
            render_nodes_view(r@) == self.spec_render().children,
    ;
}

/// One node of any printable value, rendered.
pub fn to_render_node<T: PrettyPrintable>(input: &T) -> (r: RenderNode)
    ensures
        r@ == input.spec_render(),
{
    let r = RenderNode { label: input.stringify(), children: input.get_children() };
    proof {
        assert(render_node_view(r) == input.spec_render());
    }
    r
}

proof fn lemma_nodes_view_index(cs: Seq<RenderNode>, i: int)
    requires
        0 <= i < cs.len(),
    ensures
        render_nodes_view(cs).len() == cs.len(),
        render_nodes_view(cs)[i] == render_node_view(cs[i]),
    decreases cs.len(),
{
    lemma_nodes_view_len(cs);
    if i > 0 {
        lemma_nodes_view_index(cs.drop_first(), i - 1);
    }
}

proof fn lemma_nodes_view_len(cs: Seq<RenderNode>)
    ensures
        render_nodes_view(cs).len() == cs.len(),
    decreases cs.len(),
{
    if cs.len() > 0 {
        lemma_nodes_view_len(cs.drop_first());
    }
}

/// Renders one node and its subtree onto `output_string`.
pub fn pretty_print_node(input: &RenderNode, output_string: &mut String, indent: &str, is_last_child: bool)
    ensures
        final(output_string)@ == old(output_string)@ + spec_render_node(
            input@,
            indent@,
            is_last_child,
        ),
    decreases *input,
{
    output_string.append(indent);
    if is_last_child {
        output_string.append("└──");
    } else {
        output_string.append("├──");
    }
    output_string.append(input.label.as_str());
    push_char(output_string, '\n');
    let mut sub_indent = String::new();
    sub_indent.append(indent);
    if is_last_child {
        sub_indent.append("   ");
    } else {
        sub_indent.append("│  ");
    }
    let ghost models = render_nodes_view(input.children@);
    let ghost ci = child_indent(indent@, is_last_child);
    let ghost base = output_string@;
    proof {
        lemma_nodes_view_len(input.children@);
        assert(models.skip(0) =~= models);
    }
    let m = input.children.len();
    let mut idx: usize = 0;
    while idx < m
        invariant
            m == input.children@.len(),
            models == render_nodes_view(input.children@),
            models.len() == m,
            ci == sub_indent@,
            0 <= idx <= m,
            base + spec_render_list(models, ci) == output_string@ + spec_render_list(
                models.skip(idx as int),
                ci,
            ),
        decreases m - idx,
    {
        let is_last = idx == m - 1;
        proof {
            lemma_nodes_view_index(input.children@, idx as int);
            assert(models.skip(idx as int)[0] == models[idx as int]);
            assert(models.skip(idx as int).drop_first() =~= models.skip(idx + 1));
            assert(models.skip(idx as int).len() == m - idx);
        }
        pretty_print_node(&input.children[idx], output_string, sub_indent.as_str(), is_last);
        idx = idx + 1;
    }
    proof {
        assert(models.skip(m as int) =~= Seq::<RenderNodeModel>::empty());
        assert(spec_render_list(models.skip(m as int), ci) == Seq::<char>::empty());
        assert(output_string@ + Seq::<char>::empty() =~= output_string@);
        assert(output_string@ =~= base + spec_render_list(models, ci));
    }
}

/// Renders any printable node as a tree onto `output_string`, one label per
/// line, prefixed by the box-drawing glyphs.
pub fn pretty_print<T: PrettyPrintable>(
    input: &T,
    output_string: &mut String,
    indent: &str,
    is_last_child: bool,
)
    ensures
        final(output_string)@ == old(output_string)@ + spec_render_node(
            input.spec_render(),
            indent@,
            is_last_child,
        ),
{
    let node = to_render_node(input);
    pretty_print_node(&node, output_string, indent, is_last_child);
}

pub open spec fn selector_type_label(t: SelectorType) -> Seq<char> {
    match t {
        SelectorType::PlayerAll => "PlayerAll"@,
        SelectorType::EntitiesAll => "EntitiesAll"@,
        SelectorType::PlayerClosest => "PlayerClosest"@,
        SelectorType::PlayerRandom => "PlayerRandom"@,
        SelectorType::Caller => "Caller"@,
    }
}

/// The one-line label of a token: its variant name, with its payload.
pub open spec fn token_label(t: LexerToken) -> Seq<char> {
    match t {
        LexerToken::EndOfFile => "EndOfFile"@,
        LexerToken::Whitespace => "Whitespace"@,
        LexerToken::Comment(x) => "Comment("@ + x@ + ")"@,
        LexerToken::Identifier(x) => "Identifier("@ + x@ + ")"@,
        LexerToken::FalseKeyword => "FalseKeyword"@,
        LexerToken::TrueKeyword => "TrueKeyword"@,
        LexerToken::FloatKeyword => "FloatKeyword"@,
        LexerToken::IntKeyword => "IntKeyword"@,
        LexerToken::BoolKeyword => "BoolKeyword"@,
        LexerToken::SelectorKeyword => "SelectorKeyword"@,
        LexerToken::StringKeyword => "StringKeyword"@,
        LexerToken::FunctionKeyword => "FunctionKeyword"@,
        LexerToken::LiteralInt(v) => "LiteralInt("@ + int_text(v as int) + ")"@,
        LexerToken::LiteralFloat(x) => "LiteralFloat("@ + x@ + ")"@,
        LexerToken::LiteralSelector(sel) => "LiteralSelector("@ + selector_type_label(
            sel.selector_type,
        ) + ", "@ + sel.body@ + ")"@,
        LexerToken::LiteralString(x) => "LiteralString("@ + x@ + ")"@,
        LexerToken::OpenParenthesis => "OpenParenthesis"@,
        LexerToken::CloseParenthesis => "CloseParenthesis"@,
        LexerToken::Semicolon => "Semicolon"@,
        LexerToken::Period => "Period"@,
        LexerToken::Plus => "Plus"@,
        LexerToken::Dash => "Dash"@,
        LexerToken::Star => "Star"@,
        LexerToken::Slash => "Slash"@,
        LexerToken::Bang => "Bang"@,
        LexerToken::BangEquals => "BangEquals"@,
        LexerToken::Equals => "Equals"@,
        LexerToken::DoubleEquals => "DoubleEquals"@,
    }
}

/// A token renders as a leaf.
pub open spec fn token_render(t: LexerToken) -> RenderNodeModel {
    RenderNodeModel { label: token_label(t), children: Seq::empty() }
}

pub open spec fn expr_label(e: Expression) -> Seq<char> {
    match e {
        Expression::LiteralExpression(_) => "LiteralExpression"@,
        Expression::BinaryExpression(_, _, _) => "BinaryExpression"@,
        Expression::UnaryExpression(_, _) => "UnaryExpression"@,
        Expression::ParenthesesExpression(_, _, _) => "ParenthesesExpression"@,
    }
}

/// An expression renders as its variant name over its parts, in source
/// order; a unary node shows only its operand.
pub open spec fn expr_render(e: Expression) -> RenderNodeModel
    decreases e,
{
    RenderNodeModel {
        label: expr_label(e),
        children: match e {
            Expression::LiteralExpression(t) => seq![token_render(t)],
            Expression::BinaryExpression(a, op, b) => seq![
                expr_render(*a),
                token_render(op),
                expr_render(*b),
            ],
            Expression::UnaryExpression(_, a) => seq![expr_render(*a)],
            Expression::ParenthesesExpression(a, b, c) => seq![
                token_render(a),
                expr_render(*b),
                token_render(c),
            ],
        },
    }
}

/// The parse root renders as a fixed label over the expression and the
/// end-of-file token.
pub open spec fn tree_render(t: SyntaxTree) -> RenderNodeModel {
    RenderNodeModel {
        label: "SyntaxTree"@,
        children: seq![expr_render(*t.inner_expression), token_render(t.end_of_file_token)],
    }
}

fn token_label_string(t: &LexerToken) -> (r: String)
    ensures
        r@ == token_label(*t),
{
    match t {
        LexerToken::EndOfFile => "EndOfFile".to_owned(),
        LexerToken::Whitespace => "Whitespace".to_owned(),
        LexerToken::Comment(x) => {
            let mut s = "Comment(".to_owned();
            s.append(x.as_str());
            s.append(")");
            s
        },
        LexerToken::Identifier(x) => {
            let mut s = "Identifier(".to_owned();
            s.append(x.as_str());
            s.append(")");
            s
        },
        LexerToken::FalseKeyword => "FalseKeyword".to_owned(),
        LexerToken::TrueKeyword => "TrueKeyword".to_owned(),
        LexerToken::FloatKeyword => "FloatKeyword".to_owned(),
        LexerToken::IntKeyword => "IntKeyword".to_owned(),
        LexerToken::BoolKeyword => "BoolKeyword".to_owned(),
        LexerToken::SelectorKeyword => "SelectorKeyword".to_owned(),
        LexerToken::StringKeyword => "StringKeyword".to_owned(),
        LexerToken::FunctionKeyword => "FunctionKeyword".to_owned(),
        LexerToken::LiteralInt(v) => {
            let mut s = "LiteralInt(".to_owned();
            let d = i64_to_string(*v);
            s.append(d.as_str());
            s.append(")");
            s
        },
        LexerToken::LiteralFloat(x) => {
            let mut s = "LiteralFloat(".to_owned();
            s.append(x.as_str());
            s.append(")");
            s
        },
        LexerToken::LiteralSelector(sel) => {
            let mut s = "LiteralSelector(".to_owned();
            let name = match sel.selector_type {
                SelectorType::PlayerAll => "PlayerAll",
                SelectorType::EntitiesAll => "EntitiesAll",
                SelectorType::PlayerClosest => "PlayerClosest",
                SelectorType::PlayerRandom => "PlayerRandom",
                SelectorType::Caller => "Caller",
            };
            s.append(name);
            s.append(", ");
            s.append(sel.body.as_str());
            s.append(")");
            s
        },
        LexerToken::LiteralString(x) => {
            let mut s = "LiteralString(".to_owned();
            s.append(x.as_str());
            s.append(")");
            s
        },
        LexerToken::OpenParenthesis => "OpenParenthesis".to_owned(),
        LexerToken::CloseParenthesis => "CloseParenthesis".to_owned(),
        LexerToken::Semicolon => "Semicolon".to_owned(),
        LexerToken::Period => "Period".to_owned(),
        LexerToken::Plus => "Plus".to_owned(),
        LexerToken::Dash => "Dash".to_owned(),
        LexerToken::Star => "Star".to_owned(),
        LexerToken::Slash => "Slash".to_owned(),
        LexerToken::Bang => "Bang".to_owned(),
        LexerToken::BangEquals => "BangEquals".to_owned(),
        LexerToken::Equals => "Equals".to_owned(),
        LexerToken::DoubleEquals => "DoubleEquals".to_owned(),
    }
}

proof fn lemma_nodes_view0()
    ensures
        render_nodes_view(Seq::<RenderNode>::empty()) == Seq::<RenderNodeModel>::empty(),
{
}

proof fn lemma_nodes_view1(a: RenderNode)
    ensures
        render_nodes_view(seq![a]) == seq![render_node_view(a)],
{
    let e = Seq::<RenderNode>::empty();
    lemma_nodes_view0();
    assert(seq![a].drop_first() =~= e);
    assert(seq![a][0] == a);
    assert(render_nodes_view(seq![a]) == seq![render_node_view(a)] + Seq::<
        RenderNodeModel,
    >::empty());
    assert(seq![render_node_view(a)] + Seq::<RenderNodeModel>::empty() =~= seq![
        render_node_view(a),
    ]);
}

proof fn lemma_nodes_view2(a: RenderNode, b: RenderNode)
    ensures
        render_nodes_view(seq![a, b]) == seq![render_node_view(a), render_node_view(b)],
{
    assert(seq![a, b].drop_first() =~= seq![b]);
    lemma_nodes_view1(b);
    assert(render_nodes_view(seq![a, b]) =~= seq![render_node_view(a), render_node_view(b)]);
}

proof fn lemma_nodes_view3(a: RenderNode, b: RenderNode, c: RenderNode)
    ensures
        render_nodes_view(seq![a, b, c]) == seq![
            render_node_view(a),
            render_node_view(b),
            render_node_view(c),
        ],
{
    assert(seq![a, b, c].drop_first() =~= seq![b, c]);
    lemma_nodes_view2(b, c);
    assert(render_nodes_view(seq![a, b, c]) =~= seq![
        render_node_view(a),
        render_node_view(b),
        render_node_view(c),
    ]);
}

/// A token as a rendered leaf node.
fn token_node(t: &LexerToken) -> (r: RenderNode)
    ensures
        r@ == token_render(*t),
{
    let r = RenderNode { label: token_label_string(t), children: Vec::new() };
    proof {
        assert(render_node_view(r) == token_render(*t));
    }
    r
}

/// An expression as a rendered subtree.
fn expr_node(e: &Expression) -> (r: RenderNode)
    ensures
        r@ == expr_render(*e),
    decreases *e,
{
    match e {
        Expression::LiteralExpression(t) => {
            let mut ch: Vec<RenderNode> = Vec::new();
            let c0 = token_node(t);
            proof {
                lemma_nodes_view1(c0);
            }
            ch.push(c0);
            proof {
                assert(ch@ =~= seq![c0]);
            }
            RenderNode { label: "LiteralExpression".to_owned(), children: ch }
        },
        Expression::BinaryExpression(a, op, b) => {
            let c0 = expr_node(&**a);
            let c1 = token_node(op);
            let c2 = expr_node(&**b);
            proof {
                lemma_nodes_view3(c0, c1, c2);
            }
            let mut ch: Vec<RenderNode> = Vec::new();
            ch.push(c0);
            ch.push(c1);
            ch.push(c2);
            proof {
                assert(ch@ =~= seq![c0, c1, c2]);
            }
            RenderNode { label: "BinaryExpression".to_owned(), children: ch }
        },
        Expression::UnaryExpression(_, a) => {
            let c0 = expr_node(&**a);
            proof {
                lemma_nodes_view1(c0);
            }
            let mut ch: Vec<RenderNode> = Vec::new();
            ch.push(c0);
            proof {
                assert(ch@ =~= seq![c0]);
            }
            RenderNode { label: "UnaryExpression".to_owned(), children: ch }
        },
        Expression::ParenthesesExpression(a, b, c) => {
            let c0 = token_node(a);
            let c1 = expr_node(&**b);
            let c2 = token_node(c);
            proof {
                lemma_nodes_view3(c0, c1, c2);
            }
            let mut ch: Vec<RenderNode> = Vec::new();
            ch.push(c0);
            ch.push(c1);
            ch.push(c2);
            proof {
                assert(ch@ =~= seq![c0, c1, c2]);
            }
            RenderNode { label: "ParenthesesExpression".to_owned(), children: ch }
        },
    }
}

impl PrettyPrintable for LexerToken {
    open spec fn spec_render(&self) -> RenderNodeModel {
        token_render(*self)
    }

    fn stringify(&self) -> (r: String) {
        token_label_string(self)
    }

    fn get_children(&self) -> (r: Vec<RenderNode>) {
        let v: Vec<RenderNode> = Vec::new();
        proof {
            assert(render_nodes_view(v@) =~= Seq::<RenderNodeModel>::empty());
        }
        v
    }
}

impl PrettyPrintable for Expression {
    open spec fn spec_render(&self) -> RenderNodeModel {
        expr_render(*self)
    }

    fn stringify(&self) -> (r: String) {
        match self {
            Expression::LiteralExpression(_) => "LiteralExpression".to_owned(),
            Expression::BinaryExpression(_, _, _) => "BinaryExpression".to_owned(),
            Expression::UnaryExpression(_, _) => "UnaryExpression".to_owned(),
            Expression::ParenthesesExpression(_, _, _) => "ParenthesesExpression".to_owned(),
        }
    }

    fn get_children(&self) -> (r: Vec<RenderNode>) {
        let node = expr_node(self);
        node.children
    }
}

impl PrettyPrintable for SyntaxTree {
    open spec fn spec_render(&self) -> RenderNodeModel {
        tree_render(*self)
    }

    fn stringify(&self) -> (r: String) {
        "SyntaxTree".to_owned()
    }

    fn get_children(&self) -> (r: Vec<RenderNode>) {
        let c0 = expr_node(&self.inner_expression);
        let c1 = token_node(&self.end_of_file_token);
        proof {
            lemma_nodes_view2(c0, c1);
        }
        let mut ch: Vec<RenderNode> = Vec::new();
        ch.push(c0);
        ch.push(c1);
        proof {
            assert(ch@ =~= seq![c0, c1]);
        }
        ch
    }
}

} // verus!
