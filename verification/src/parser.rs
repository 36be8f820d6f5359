//! The parser of pipe queries: clauses separated by `|>`, each beginning
//! with its keyword.

use vstd::prelude::*;
use vstd::string::StringExecFns;
use crate::errors::ParsingError;
use crate::logical_plan::{
    clause_body, entries_of, joined, list_entries, LogicalPlan, PlanView,
};
use crate::scanner::LogicalScanNode;
use crate::text::{has_prefix, starts_with, to_chars, to_text, trim, trim_start_matches, trimmed};

verus! {

/// What the parser knows between two clauses: the plan so far, and the
/// table that the last FROM clause named.
pub struct ParseState {
    pub plan: PlanView,
    pub last_table: Option<Seq<char>>,
}

/// What one clause does to the state, or the message of the error. The
/// keyword at the start of the clause decides.
pub open spec fn apply_clause(state: ParseState, token: Seq<char>) -> Result<ParseState, Seq<char>> {
    if has_prefix(token, "SELECT"@) {
        Ok(ParseState { plan: state.plan.with_select(token), ..state })
    } else if has_prefix(token, "FROM"@) {
        Ok(
            ParseState {
                plan: state.plan.with_scan(clause_body(token, "FROM"@)),
                last_table: Some(clause_body(token, "FROM"@)),
            },
        )
    } else if has_prefix(token, "WHERE"@) {
        Ok(ParseState { plan: state.plan.with_where(token), ..state })
    } else if has_prefix(token, "JOIN"@) {
        if state.last_table is None {
            Err("JOIN must follow a FROM clause"@)
        } else {
            match joined(state.plan, token, state.last_table) {
                Ok(plan) => Ok(ParseState { plan, ..state }),
                Err(message) => Err(message),
            }
        }
    } else if has_prefix(token, "ORDER BY"@) {
        Ok(ParseState { plan: state.plan.with_order_by(token), ..state })
    } else {
        Err("Unsupported SQL component: "@ + token)
    }
}

/// What the clauses from position `from` on do to the state, in order; the
/// first error ends the parse.
pub open spec fn apply_clauses(state: ParseState, tokens: Seq<Seq<char>>, from: int) -> Result<
    ParseState,
    Seq<char>,
>
    decreases tokens.len() - from,
{
    if from >= tokens.len() {
        Ok(state)
    } else {
        match apply_clause(state, tokens[from]) {
            Ok(next) => apply_clauses(next, tokens, from + 1),
            Err(message) => Err(message),
        }
    }
}

/// The clauses of a query: what stands between the occurrences of `|>`,
/// each trimmed.
pub open spec fn clauses(input: Seq<char>) -> Seq<Seq<char>> {
    list_entries(trimmed(input), "|>"@)
}

/// The plan of a query, or the message of the error.
pub open spec fn parsed(input: Seq<char>) -> Result<PlanView, Seq<char>> {
    match apply_clauses(
        ParseState { plan: PlanView::empty(input), last_table: None },
        clauses(input),
        0,
    ) {
        Ok(state) => Ok(state.plan),
        Err(message) => Err(message),
    }
}

/// The view of a table name that may be absent.
pub open spec fn table_view(table: Option<String>) -> Option<Seq<char>> {
    match table {
        Some(name) => Some(name@),
        None => None,
    }
}

/// Whether the clause begins with the keyword.
fn begins_with(token: &str, keyword: &str) -> (result: bool)
    ensures
        result == has_prefix(token@, keyword@),
{
    let chars = to_chars(token);
    let keyword_chars = to_chars(keyword);
    starts_with(chars.as_slice(), keyword_chars.as_slice())
}

/// Parses a pipe query into its logical plan. A query has at least one
/// clause: the empty query has one empty clause, which is not supported.
pub fn parse_pipe_sql(input: &str) -> (result: Result<LogicalPlan, ParsingError>)
    ensures
        match parsed(input@) {
            Ok(plan) => result matches Ok(p) && p@ == plan,
            Err(message) => result matches Err(e) && e.message@ == message,
        },
{
    let chars = to_chars(input);
    let tokens = entries_of(trim(chars.as_slice()), "|>");
    let mut logical_plan = LogicalPlan::new(input.to_owned());
    let mut last_table: Option<String> = None;
    let ghost start = ParseState { plan: PlanView::empty(input@), last_table: None };
    let mut i: usize = 0;
    while i < tokens.len()
        invariant
            i <= tokens@.len(),
            start == (ParseState { plan: PlanView::empty(input@), last_table: None }),
            tokens@.len() == clauses(input@).len(),
            forall|j: int| 0 <= j < tokens@.len() ==> (#[trigger] tokens@[j])@ == clauses(input@)[j],
            apply_clauses(
                ParseState { plan: logical_plan@, last_table: table_view(last_table) },
                clauses(input@),
                i as int,
            ) == apply_clauses(start, clauses(input@), 0),
        decreases tokens.len() - i,
    {
        let token = tokens[i].as_str();
        assert(token@ == clauses(input@)[i as int]);
        if begins_with(token, "SELECT") {
            match logical_plan.parse_select(token) {
                Ok(_) => {},
                Err(e) => {
                    return Err(e);
                },
            }
        } else if begins_with(token, "FROM") {
            let token_chars = to_chars(token);
            let keyword = to_chars("FROM");
            let table_name = to_text(
                trim(trim_start_matches(token_chars.as_slice(), keyword.as_slice())),
            );
            logical_plan.add_scan(LogicalScanNode::new(table_name.as_str()));
            last_table = Some(table_name);
        } else if begins_with(token, "WHERE") {
            match logical_plan.parse_where(token) {
                Ok(_) => {},
                Err(e) => {
                    return Err(e);
                },
            }
        } else if begins_with(token, "JOIN") {
            if last_table.is_none() {
                return Err(ParsingError::new("JOIN must follow a FROM clause"));
            }
            let table = last_table.clone();
            assert(table_view(table) == table_view(last_table));
            match logical_plan.parse_join(token, table) {
                Ok(_) => {},
                Err(e) => {
                    return Err(e);
                },
            }
        } else if begins_with(token, "ORDER BY") {
            match logical_plan.parse_order_by(token) {
                Ok(_) => {},
                Err(e) => {
                    return Err(e);
                },
            }
        } else {
            let message = "Unsupported SQL component: ".to_owned().concat(token);
            return Err(ParsingError::new(message.as_str()));
        }
        i += 1;
    }
    Ok(logical_plan)
}

} // verus!
