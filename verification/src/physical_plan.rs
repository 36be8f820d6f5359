//! The physical plan: the operations of a query as lines of text.

use vstd::prelude::*;
use vstd::string::StringExecFns;
use crate::join::JoinView;
use crate::logical_plan::{LogicalPlan, PlanView};

verus! {

/// The operations of a query.
#[derive(Debug)]
pub struct PhysicalPlan {
    pub query: String,
    pub operations: Vec<String>,
}

/// The mathematical content of a physical plan.
pub struct PhysicalView {
    pub query: Seq<char>,
    pub operations: Seq<Seq<char>>,
}

/// The views of the texts, in order.
pub open spec fn texts_view(texts: Seq<String>) -> Seq<Seq<char>> {
    Seq::new(texts.len(), |i: int| texts[i]@)
}

impl View for PhysicalPlan {
    type V = PhysicalView;

    open spec fn view(&self) -> PhysicalView {
        PhysicalView { query: self.query@, operations: texts_view(self.operations@) }
    }
}

/// The line for a join.
pub open spec fn join_line(join: JoinView) -> Seq<char> {
    "JOIN "@ + join.table2 + " ON "@ + join.condition + " = "@ + join.table1
}

/// Each text behind the given words.
pub open spec fn lines(words: Seq<char>, texts: Seq<Seq<char>>) -> Seq<Seq<char>> {
    Seq::new(texts.len(), |i: int| words + texts[i])
}

/// The line of each join.
pub open spec fn join_lines(joins: Seq<JoinView>) -> Seq<Seq<char>> {
    Seq::new(joins.len(), |i: int| join_line(joins[i]))
}

/// The operations of a plan: the scans, then the joins, the filters, the
/// projections and the orderings, each kind in the order of the plan.
pub open spec fn operations_of(plan: PlanView) -> Seq<Seq<char>> {
    lines("SCAN TABLE "@, plan.scans) + join_lines(plan.joins) + lines(
        "FILTER WHERE "@,
        plan.filters,
    ) + lines("PROJECT "@, plan.select_list) + lines("ORDER BY "@, plan.order_by)
}

/// The text behind the words.
fn line(words: &str, text: &str) -> (result: String)
    ensures
        result@ == words@ + text@,
{
    words.to_owned().concat(text)
}

/// Turns a logical plan into the list of its operations.
pub fn convert_to_physical_plan(logical_plan: &LogicalPlan) -> (plan: PhysicalPlan)
    ensures
        plan@ == (PhysicalView {
            query: logical_plan@.query,
            operations: operations_of(logical_plan@),
        }),
{
    let ghost view = logical_plan@;
    let mut operations: Vec<String> = Vec::new();
    assert(texts_view(operations@) =~= lines("SCAN TABLE "@, view.scans.take(0)));
    let mut i: usize = 0;
    while i < logical_plan.scans.len()
        invariant
            i <= logical_plan.scans@.len(),
            view == logical_plan@,
            texts_view(operations@) == lines("SCAN TABLE "@, view.scans.take(i as int)),
        decreases logical_plan.scans.len() - i,
    {
        let ghost before = texts_view(operations@);
        let op = line("SCAN TABLE ", logical_plan.scans[i].table_name.as_str());
        assert(op@ == "SCAN TABLE "@ + view.scans[i as int]);
        operations.push(op);
        assert(texts_view(operations@) =~= before.push(op@));
        assert(texts_view(operations@) =~= lines("SCAN TABLE "@, view.scans.take(i + 1)));
        i += 1;
    }
    assert(view.scans.take(i as int) =~= view.scans);
    let ghost scans_done = texts_view(operations@);

    assert(texts_view(operations@) =~= scans_done + join_lines(view.joins.take(0)));
    i = 0;
    while i < logical_plan.joins.len()
        invariant
            i <= logical_plan.joins@.len(),
            view == logical_plan@,
            texts_view(operations@) == scans_done + join_lines(view.joins.take(i as int)),
        decreases logical_plan.joins.len() - i,
    {
        let ghost before = texts_view(operations@);
        let join = &logical_plan.joins[i];
        let op = "JOIN ".to_owned().concat(join.table2.as_str()).concat(" ON ").concat(
            join.condition.as_str(),
        ).concat(" = ").concat(join.table1.as_str());
        assert(op@ == join_line(view.joins[i as int]));
        operations.push(op);
        assert(texts_view(operations@) =~= before.push(op@));
        assert(texts_view(operations@) =~= scans_done + join_lines(view.joins.take(i + 1)));
        i += 1;
    }
    assert(view.joins.take(i as int) =~= view.joins);
    let ghost joins_done = texts_view(operations@);

    assert(texts_view(operations@) =~= joins_done + lines("FILTER WHERE "@, view.filters.take(0)));
    i = 0;
    while i < logical_plan.filters.len()
        invariant
            i <= logical_plan.filters@.len(),
            view == logical_plan@,
            texts_view(operations@) == joins_done + lines(
                "FILTER WHERE "@,
                view.filters.take(i as int),
            ),
        decreases logical_plan.filters.len() - i,
    {
        let ghost before = texts_view(operations@);
        let op = line("FILTER WHERE ", logical_plan.filters[i].condition.as_str());
        assert(op@ == "FILTER WHERE "@ + view.filters[i as int]);
        operations.push(op);
        assert(texts_view(operations@) =~= before.push(op@));
        assert(texts_view(operations@) =~= joins_done + lines(
            "FILTER WHERE "@,
            view.filters.take(i + 1),
        ));
        i += 1;
    }
    assert(view.filters.take(i as int) =~= view.filters);
    let ghost filters_done = texts_view(operations@);

    assert(texts_view(operations@) =~= filters_done + lines("PROJECT "@, view.select_list.take(0)));
    i = 0;
    while i < logical_plan.select_list.len()
        invariant
            i <= logical_plan.select_list@.len(),
            view == logical_plan@,
            texts_view(operations@) == filters_done + lines(
                "PROJECT "@,
                view.select_list.take(i as int),
            ),
        decreases logical_plan.select_list.len() - i,
    {
        let ghost before = texts_view(operations@);
        let op = line("PROJECT ", logical_plan.select_list[i].field.as_str());
        assert(op@ == "PROJECT "@ + view.select_list[i as int]);
        operations.push(op);
        assert(texts_view(operations@) =~= before.push(op@));
        assert(texts_view(operations@) =~= filters_done + lines(
            "PROJECT "@,
            view.select_list.take(i + 1),
        ));
        i += 1;
    }
    assert(view.select_list.take(i as int) =~= view.select_list);
    let ghost selects_done = texts_view(operations@);

    assert(texts_view(operations@) =~= selects_done + lines("ORDER BY "@, view.order_by.take(0)));
    i = 0;
    while i < logical_plan.order_by.len()
        invariant
            i <= logical_plan.order_by@.len(),
            view == logical_plan@,
            texts_view(operations@) == selects_done + lines(
                "ORDER BY "@,
                view.order_by.take(i as int),
            ),
        decreases logical_plan.order_by.len() - i,
    {
        let ghost before = texts_view(operations@);
        let op = line("ORDER BY ", logical_plan.order_by[i].field.as_str());
        assert(op@ == "ORDER BY "@ + view.order_by[i as int]);
        operations.push(op);
        assert(texts_view(operations@) =~= before.push(op@));
        assert(texts_view(operations@) =~= selects_done + lines(
            "ORDER BY "@,
            view.order_by.take(i + 1),
        ));
        i += 1;
    }
    assert(view.order_by.take(i as int) =~= view.order_by);
    PhysicalPlan { query: logical_plan.query.clone(), operations }
}

} // verus!
