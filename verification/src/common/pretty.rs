//! Plans as text.
use crate::common::plan::LogicalRelExpr;
use std::rc::Rc;
use vstd::prelude::*;
use vstd::string::*;

verus! {

/// What a plan node is called, with the table that it reads.
pub open spec fn label(l: LogicalRelExpr) -> Seq<char> {
    match l {
        LogicalRelExpr::Scan { table_name, .. } => "Scan "@ + table_name@,
        LogicalRelExpr::IndexScan { table_name, .. } => "IndexScan "@ + table_name@,
        LogicalRelExpr::Select { .. } => "Select"@,
        LogicalRelExpr::Join { .. } => "Join"@,
        LogicalRelExpr::Project { .. } => "Project"@,
        LogicalRelExpr::OrderBy { .. } => "OrderBy"@,
        LogicalRelExpr::Aggregate { .. } => "Aggregate"@,
        LogicalRelExpr::Compute { .. } => "Map"@,
        LogicalRelExpr::FlatMap { .. } => "FlatMap"@,
        LogicalRelExpr::Rename { .. } => "Rename"@,
        LogicalRelExpr::Delete { .. } => "Delete"@,
        LogicalRelExpr::Update { .. } => "Update"@,
    }
}

/// A plan as text: a line per node, and its inputs below it, indented.
pub open spec fn plan_text(l: LogicalRelExpr, prefix: Seq<char>) -> Seq<char>
    decreases l,
{
    let line = prefix + label(l) + "\n"@;
    let deeper = prefix + "  "@;
    match l {
        LogicalRelExpr::Scan { .. } => line,
        LogicalRelExpr::IndexScan { .. } => line,
        LogicalRelExpr::Select { src, .. } => line + plan_text(*src, deeper),
        LogicalRelExpr::Join { left, right, .. } => line + plan_text(*left, deeper) + plan_text(
            *right,
            deeper,
        ),
        LogicalRelExpr::Project { src, .. } => line + plan_text(*src, deeper),
        LogicalRelExpr::OrderBy { src, .. } => line + plan_text(*src, deeper),
        LogicalRelExpr::Aggregate { src, .. } => line + plan_text(*src, deeper),
        LogicalRelExpr::Compute { input, .. } => line + plan_text(*input, deeper),
        LogicalRelExpr::FlatMap { input, func } => line + plan_text(*input, deeper) + plan_text(
            *func,
            deeper,
        ),
        LogicalRelExpr::Rename { src, .. } => line + plan_text(*src, deeper),
        LogicalRelExpr::Delete { src, .. } => line + plan_text(*src, deeper),
        LogicalRelExpr::Update { src, .. } => line + plan_text(*src, deeper),
    }
}

fn push_label(l: &LogicalRelExpr, out: &mut String)
    ensures
        final(out)@ == old(out)@ + label(*l),
{
    let ghost before = out@;
    match l {
        LogicalRelExpr::Scan { table_name, .. } => {
            out.append("Scan ");
            out.append(table_name.as_str());
        },
        LogicalRelExpr::IndexScan { table_name, .. } => {
            out.append("IndexScan ");
            out.append(table_name.as_str());
        },
        LogicalRelExpr::Select { .. } => {
            out.append("Select");
        },
        LogicalRelExpr::Join { .. } => {
            out.append("Join");
        },
        LogicalRelExpr::Project { .. } => {
            out.append("Project");
        },
        LogicalRelExpr::OrderBy { .. } => {
            out.append("OrderBy");
        },
        LogicalRelExpr::Aggregate { .. } => {
            out.append("Aggregate");
        },
        LogicalRelExpr::Compute { .. } => {
            out.append("Map");
        },
        LogicalRelExpr::FlatMap { .. } => {
            out.append("FlatMap");
        },
        LogicalRelExpr::Rename { .. } => {
            out.append("Rename");
        },
        LogicalRelExpr::Delete { .. } => {
            out.append("Delete");
        },
        LogicalRelExpr::Update { .. } => {
            out.append("Update");
        },
    }
    assert(out@ =~= before + label(*l));
}

impl LogicalRelExpr {
    fn push_text(&self, prefix: &str, out: &mut String)
        ensures
            final(out)@ == old(out)@ + plan_text(*self, prefix@),
        decreases *self,
    {
        let ghost before = out@;
        out.append(prefix);
        push_label(self, out);
        out.append("\n");
        let mut deeper: String = prefix.to_owned();
        deeper.append("  ");
        match self {
            LogicalRelExpr::Scan { .. } | LogicalRelExpr::IndexScan { .. } => {},
            LogicalRelExpr::Select { src, .. }
            | LogicalRelExpr::Project { src, .. }
            | LogicalRelExpr::OrderBy { src, .. }
            | LogicalRelExpr::Aggregate { src, .. }
            | LogicalRelExpr::Rename { src, .. }
            | LogicalRelExpr::Delete { src, .. }
            | LogicalRelExpr::Update { src, .. } => {
                src.push_text(deeper.as_str(), out);
            },
            LogicalRelExpr::Compute { input, .. } => {
                input.push_text(deeper.as_str(), out);
            },
            LogicalRelExpr::Join { left, right, .. } => {
                left.push_text(deeper.as_str(), out);
                right.push_text(deeper.as_str(), out);
            },
            LogicalRelExpr::FlatMap { input, func } => {
                input.push_text(deeper.as_str(), out);
                func.push_text(deeper.as_str(), out);
            },
        }
        assert(out@ =~= before + plan_text(*self, prefix@));
    }

    /// The plan as text.
    pub fn pretty_string(&self) -> (r: String)
        ensures
            r@ == plan_text(*self, Seq::empty()),
    {
        let mut out: String = String::new();
        let empty: String = String::new();
        self.push_text(empty.as_str(), &mut out);
        proof {
            assert(empty@ =~= Seq::<char>::empty());
            assert(out@ =~= plan_text(*self, Seq::empty()));
        }
        out
    }
}

/// The number of nodes of a plan.
pub open spec fn nodes(l: LogicalRelExpr) -> nat
    decreases l,
{
    match l {
        LogicalRelExpr::Scan { .. } => 1,
        LogicalRelExpr::IndexScan { .. } => 1,
        LogicalRelExpr::Select { src, .. } => 1 + nodes(*src),
        LogicalRelExpr::Join { left, right, .. } => 1 + nodes(*left) + nodes(*right),
        LogicalRelExpr::Project { src, .. } => 1 + nodes(*src),
        LogicalRelExpr::OrderBy { src, .. } => 1 + nodes(*src),
        LogicalRelExpr::Aggregate { src, .. } => 1 + nodes(*src),
        LogicalRelExpr::Compute { input, .. } => 1 + nodes(*input),
        LogicalRelExpr::FlatMap { input, func } => 1 + nodes(*input) + nodes(*func),
        LogicalRelExpr::Rename { src, .. } => 1 + nodes(*src),
        LogicalRelExpr::Delete { src, .. } => 1 + nodes(*src),
        LogicalRelExpr::Update { src, .. } => 1 + nodes(*src),
    }
}

/// Every node of a plan has one line in its text, and every line starts with
/// what the whole text is indented by: a text that is indented further is
/// longer by as much on each line.
pub proof fn lemma_one_line_per_node(l: &LogicalRelExpr, prefix: Seq<char>, more: Seq<char>)
    ensures
        plan_text(*l, more + prefix).len() == plan_text(*l, prefix).len() + nodes(*l) * more.len(),
    decreases *l,
{
    let deeper = prefix + "  "@;
    assert(more + prefix + "  "@ =~= more + deeper);
    let k = more.len();
    match l {
        LogicalRelExpr::Scan { .. } | LogicalRelExpr::IndexScan { .. } => {
            lemma_lines(0, 0, k);
        },
        LogicalRelExpr::Select { src, .. }
        | LogicalRelExpr::Project { src, .. }
        | LogicalRelExpr::OrderBy { src, .. }
        | LogicalRelExpr::Aggregate { src, .. }
        | LogicalRelExpr::Rename { src, .. }
        | LogicalRelExpr::Delete { src, .. }
        | LogicalRelExpr::Update { src, .. } => {
            lemma_one_line_per_node(&*src, deeper, more);
            lemma_lines((nodes(*l) - 1) as nat, 0, k);
        },
        LogicalRelExpr::Compute { input, .. } => {
            lemma_one_line_per_node(&*input, deeper, more);
            lemma_lines((nodes(*l) - 1) as nat, 0, k);
        },
        LogicalRelExpr::Join { left, right, .. } => {
            lemma_one_line_per_node(&*left, deeper, more);
            lemma_one_line_per_node(&*right, deeper, more);
            lemma_two_inputs(&*left, &*right, k);
        },
        LogicalRelExpr::FlatMap { input, func } => {
            lemma_one_line_per_node(&*input, deeper, more);
            lemma_one_line_per_node(&*func, deeper, more);
            lemma_two_inputs(&*input, &*func, k);
        },
    }
}

/// The indentation of a node and of its inputs.
proof fn lemma_lines(a: nat, b: nat, k: nat)
    ensures
        (1 + a + b) * k == k + a * k + b * k,
{
    assert((1 + a + b) * k == k + a * k + b * k) by (nonlinear_arith);
}

/// The indentation of a node with two inputs.
proof fn lemma_two_inputs(a: &LogicalRelExpr, b: &LogicalRelExpr, k: nat)
    ensures
        (1 + nodes(*a) + nodes(*b)) * k == k + nodes(*a) * k + nodes(*b) * k,
{
    lemma_lines(nodes(*a), nodes(*b), k);
}

/// The inputs of a plan node, from left to right.
pub open spec fn inputs(l: LogicalRelExpr) -> Seq<Rc<LogicalRelExpr>> {
    match l {
        LogicalRelExpr::Scan { .. } => seq![],
        LogicalRelExpr::IndexScan { .. } => seq![],
        LogicalRelExpr::Select { src, .. } => seq![src],
        LogicalRelExpr::Join { left, right, .. } => seq![left, right],
        LogicalRelExpr::Project { src, .. } => seq![src],
        LogicalRelExpr::OrderBy { src, .. } => seq![src],
        LogicalRelExpr::Aggregate { src, .. } => seq![src],
        LogicalRelExpr::Compute { input, .. } => seq![input],
        LogicalRelExpr::FlatMap { input, func } => seq![input, func],
        LogicalRelExpr::Rename { src, .. } => seq![src],
        LogicalRelExpr::Delete { src, .. } => seq![src],
        LogicalRelExpr::Update { src, .. } => seq![src],
    }
}

/// A node has a line with its label, and the texts of its inputs follow, each
/// indented by two blanks more than the node. A node that reads a table names
/// it.
pub proof fn lemma_text_of_a_node(l: LogicalRelExpr, prefix: Seq<char>)
    ensures
        inputs(l).len() == 0 ==> plan_text(l, prefix) == prefix + label(l) + "\n"@,
        inputs(l).len() == 1 ==> plan_text(l, prefix) == prefix + label(l) + "\n"@ + plan_text(
            *inputs(l)[0],
            prefix + "  "@,
        ),
        inputs(l).len() == 2 ==> plan_text(l, prefix) == prefix + label(l) + "\n"@ + plan_text(
            *inputs(l)[0],
            prefix + "  "@,
        ) + plan_text(*inputs(l)[1], prefix + "  "@),
        inputs(l).len() <= 2,
        l matches LogicalRelExpr::Scan { table_name, .. } ==> label(l) == "Scan "@ + table_name@,
        l matches LogicalRelExpr::IndexScan { table_name, .. } ==> label(l) == "IndexScan "@
            + table_name@,
{
}

} // verus!
