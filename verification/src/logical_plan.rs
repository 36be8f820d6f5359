//! The logical plan: the clauses of a query, each kind in the order in
//! which the query gives them.

use vstd::prelude::*;
use crate::errors::ParsingError;
use crate::filter::LogicalFilterNode;
use crate::join::{JoinView, LogicalJoinNode};
use crate::order_by::LogicalOrderByNode;
use crate::scanner::LogicalScanNode;
use crate::select::LogicalSelectListNode;
use crate::text::{
    each_trimmed, pieces_view, split, split_by, to_chars, to_text, trim, trim_start_matches,
    trimmed, without_prefixes,
};

verus! {

/// The clauses of a query.
#[derive(Debug)]
pub struct LogicalPlan {
    pub query: String,
    pub filters: Vec<LogicalFilterNode>,
    pub joins: Vec<LogicalJoinNode>,
    pub scans: Vec<LogicalScanNode>,
    pub select_list: Vec<LogicalSelectListNode>,
    pub order_by: Vec<LogicalOrderByNode>,
}

/// The mathematical content of a logical plan.
pub struct PlanView {
    pub query: Seq<char>,
    pub filters: Seq<Seq<char>>,
    pub joins: Seq<JoinView>,
    pub scans: Seq<Seq<char>>,
    pub select_list: Seq<Seq<char>>,
    pub order_by: Seq<Seq<char>>,
}

impl View for LogicalPlan {
    type V = PlanView;

    open spec fn view(&self) -> PlanView {
        PlanView {
            query: self.query@,
            filters: Seq::new(self.filters@.len(), |i: int| self.filters@[i].condition@),
            joins: Seq::new(self.joins@.len(), |i: int| self.joins@[i]@),
            scans: Seq::new(self.scans@.len(), |i: int| self.scans@[i].table_name@),
            select_list: Seq::new(self.select_list@.len(), |i: int| self.select_list@[i].field@),
            order_by: Seq::new(self.order_by@.len(), |i: int| self.order_by@[i].field@),
        }
    }
}

/// What a clause says behind its keyword: the clause without the keyword,
/// as often as it begins with it, and without white space round it.
pub open spec fn clause_body(token: Seq<char>, keyword: Seq<char>) -> Seq<char> {
    trimmed(without_prefixes(token, keyword))
}

/// The entries of a list: the pieces between the separators, each trimmed.
pub open spec fn list_entries(body: Seq<char>, separator: Seq<char>) -> Seq<Seq<char>> {
    each_trimmed(split_by(body, separator))
}

impl PlanView {
    /// The plan of a query without clauses.
    pub open spec fn empty(query: Seq<char>) -> PlanView {
        PlanView {
            query,
            filters: Seq::empty(),
            joins: Seq::empty(),
            scans: Seq::empty(),
            select_list: Seq::empty(),
            order_by: Seq::empty(),
        }
    }

    /// The plan with a SELECT clause added.
    pub open spec fn with_select(self, token: Seq<char>) -> PlanView {
        PlanView {
            select_list: self.select_list + list_entries(clause_body(token, "SELECT"@), ","@),
            ..self
        }
    }

    /// The plan with a scan added.
    pub open spec fn with_scan(self, table_name: Seq<char>) -> PlanView {
        PlanView { scans: self.scans.push(table_name), ..self }
    }

    /// The plan with a WHERE clause added.
    pub open spec fn with_where(self, token: Seq<char>) -> PlanView {
        PlanView { filters: self.filters.push(clause_body(token, "WHERE"@)), ..self }
    }

    /// The plan with an ORDER BY clause added.
    pub open spec fn with_order_by(self, token: Seq<char>) -> PlanView {
        PlanView { order_by: self.order_by.push(clause_body(token, "ORDER BY"@)), ..self }
    }

    /// The plan with a join added.
    pub open spec fn with_join(self, join: JoinView) -> PlanView {
        PlanView { joins: self.joins.push(join), ..self }
    }
}

/// The parts of a JOIN clause: what stands between the occurrences of `ON`.
pub open spec fn join_parts(token: Seq<char>) -> Seq<Seq<char>> {
    list_entries(clause_body(token, "JOIN"@), "ON"@)
}

/// What a JOIN clause does to a plan, or the message of the error.
pub open spec fn joined(plan: PlanView, token: Seq<char>, last_table: Option<Seq<char>>) -> Result<
    PlanView,
    Seq<char>,
> {
    let parts = join_parts(token);
    if parts.len() != 2 {
        Err("Invalid JOIN syntax. Expected: JOIN table ON condition"@)
    } else {
        match last_table {
            Some(table1) => Ok(
                plan.with_join(JoinView { table1, table2: parts[0], condition: parts[1] }),
            ),
            None => Err("JOIN must have a preceding FROM clause"@),
        }
    }
}

/// The body of a clause, as characters.
fn body_of(token: &str, keyword: &str) -> (body: Vec<char>)
    ensures
        body@ == clause_body(token@, keyword@),
{
    let chars = to_chars(token);
    let keyword_chars = to_chars(keyword);
    let body = trim(trim_start_matches(chars.as_slice(), keyword_chars.as_slice()));
    vstd::slice::slice_to_vec(body)
}

/// The entries of a list, as texts.
pub(crate) fn entries_of(body: &[char], separator: &str) -> (entries: Vec<String>)
    ensures
        entries@.len() == list_entries(body@, separator@).len(),
        forall|i: int|
            0 <= i < entries@.len() ==> (#[trigger] entries@[i])@ == list_entries(
                body@,
                separator@,
            )[i],
{
    let separator_chars = to_chars(separator);
    let pieces = split(body, separator_chars.as_slice());
    let mut entries: Vec<String> = Vec::new();
    let mut i: usize = 0;
    while i < pieces.len()
        invariant
            i <= pieces@.len(),
            pieces_view(pieces@) == split_by(body@, separator@),
            entries@.len() == i,
            forall|j: int|
                0 <= j < i ==> (#[trigger] entries@[j])@ == list_entries(body@, separator@)[j],
        decreases pieces.len() - i,
    {
        assert(pieces_view(pieces@)[i as int] == pieces@[i as int]@);
        entries.push(to_text(trim(pieces[i].as_slice())));
        i += 1;
    }
    entries
}

impl LogicalPlan {
    /// The plan of a query without clauses.
    pub fn new(query: String) -> (plan: Self)
        ensures
            plan@ == PlanView::empty(query@),
    {
        let plan = Self {
            query,
            filters: Vec::new(),
            joins: Vec::new(),
            scans: Vec::new(),
            select_list: Vec::new(),
            order_by: Vec::new(),
        };
        assert(plan@.filters =~= Seq::empty());
        assert(plan@.joins =~= Seq::empty());
        assert(plan@.scans =~= Seq::empty());
        assert(plan@.select_list =~= Seq::empty());
        assert(plan@.order_by =~= Seq::empty());
        plan
    }

    /// Adds a scan behind the scans that are there.
    pub fn add_scan(&mut self, scan: LogicalScanNode)
        ensures
            final(self)@ == old(self)@.with_scan(scan.table_name@),
    {
        self.scans.push(scan);
        assert(self@.scans =~= old(self)@.scans.push(scan.table_name@));
        assert(self@.filters =~= old(self)@.filters);
        assert(self@.joins =~= old(self)@.joins);
        assert(self@.select_list =~= old(self)@.select_list);
        assert(self@.order_by =~= old(self)@.order_by);
    }

    /// Adds the fields of a SELECT clause, which commas separate, to the
    /// select list.
    pub fn parse_select(&mut self, token: &str) -> (result: Result<(), ParsingError>)
        ensures
            result is Ok,
            final(self)@ == old(self)@.with_select(token@),
    {
        let body = body_of(token, "SELECT");
        let fields = entries_of(body.as_slice(), ",");
        let ghost entries = list_entries(clause_body(token@, "SELECT"@), ","@);
        let mut i: usize = 0;
        while i < fields.len()
            invariant
                i <= fields@.len(),
                fields@.len() == entries.len(),
                forall|j: int| 0 <= j < fields@.len() ==> (#[trigger] fields@[j])@ == entries[j],
                self@ == (PlanView {
                    select_list: old(self)@.select_list + entries.take(i as int),
                    ..old(self)@
                }),
            decreases fields.len() - i,
        {
            let ghost before = self@;
            let node = LogicalSelectListNode::new(fields[i].as_str());
            assert(node.field@ == entries[i as int]);
            self.select_list.push(node);
            assert(self@.select_list =~= before.select_list.push(entries[i as int]));
            assert(entries.take(i + 1) =~= entries.take(i as int).push(entries[i as int]));
            assert(self@.select_list =~= old(self)@.select_list + entries.take(i + 1));
            assert(self@.filters =~= before.filters);
            assert(self@.joins =~= before.joins);
            assert(self@.scans =~= before.scans);
            assert(self@.order_by =~= before.order_by);
            i += 1;
        }
        assert(entries.take(i as int) =~= entries);
        Ok(())
    }

    /// Adds the condition of a WHERE clause to the filters.
    pub fn parse_where(&mut self, token: &str) -> (result: Result<(), ParsingError>)
        ensures
            result is Ok,
            final(self)@ == old(self)@.with_where(token@),
    {
        let body = body_of(token, "WHERE");
        let condition = to_text(body.as_slice());
        self.filters.push(LogicalFilterNode::new(condition.as_str()));
        assert(self@.filters =~= old(self)@.filters.push(clause_body(token@, "WHERE"@)));
        assert(self@.joins =~= old(self)@.joins);
        assert(self@.scans =~= old(self)@.scans);
        assert(self@.select_list =~= old(self)@.select_list);
        assert(self@.order_by =~= old(self)@.order_by);
        Ok(())
    }

    /// Adds the join of a JOIN clause, which has the form `JOIN table ON
    /// condition`, to the joins. The first table is the one read last.
    pub fn parse_join(&mut self, token: &str, last_table: Option<String>) -> (result: Result<
        (),
        ParsingError,
    >)
        ensures
            match joined(
                old(self)@,
                token@,
                match last_table {
                    Some(table) => Some(table@),
                    None => None,
                },
            ) {
                Ok(plan) => result is Ok && final(self)@ == plan,
                Err(message) => (result matches Err(e) && e.message@ == message) && final(self)@
                    == old(self)@,
            },
    {
        let body = body_of(token, "JOIN");
        let parts = entries_of(body.as_slice(), "ON");
        if parts.len() != 2 {
            return Err(ParsingError::new("Invalid JOIN syntax. Expected: JOIN table ON condition"));
        }
        if let Some(table1) = last_table {
            let node = LogicalJoinNode::new(
                table1.as_str(),
                parts[0].as_str(),
                parts[1].as_str(),
            );
            self.joins.push(node);
            assert(self@.joins =~= old(self)@.joins.push(node@));
            assert(self@.filters =~= old(self)@.filters);
            assert(self@.scans =~= old(self)@.scans);
            assert(self@.select_list =~= old(self)@.select_list);
            assert(self@.order_by =~= old(self)@.order_by);
        } else {
            return Err(ParsingError::new("JOIN must have a preceding FROM clause"));
        }
        Ok(())
    }

    /// Adds the field of an ORDER BY clause to the orderings.
    pub fn parse_order_by(&mut self, token: &str) -> (result: Result<(), ParsingError>)
        ensures
            result is Ok,
            final(self)@ == old(self)@.with_order_by(token@),
    {
        let body = body_of(token, "ORDER BY");
        let field = to_text(body.as_slice());
        self.order_by.push(LogicalOrderByNode::new(field.as_str()));
        assert(self@.order_by =~= old(self)@.order_by.push(clause_body(token@, "ORDER BY"@)));
        assert(self@.filters =~= old(self)@.filters);
        assert(self@.joins =~= old(self)@.joins);
        assert(self@.scans =~= old(self)@.scans);
        assert(self@.select_list =~= old(self)@.select_list);
        Ok(())
    }
}

} // verus!
