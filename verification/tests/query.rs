use pipedb::errors::ParsingError;
use pipedb::filter::LogicalFilterNode;
use pipedb::join::LogicalJoinNode;
use pipedb::logical_plan::LogicalPlan;
use pipedb::order_by::LogicalOrderByNode;
use pipedb::parser::parse_pipe_sql;
use pipedb::physical_plan::convert_to_physical_plan;
use pipedb::scanner::LogicalScanNode;
use pipedb::select::LogicalSelectListNode;
use pipedb::text::{char_is_whitespace, split, starts_with, to_chars, to_text, trim, trim_start_matches};

fn chars(text: &str) -> Vec<char> {
    text.chars().collect()
}

fn texts(pieces: Vec<Vec<char>>) -> Vec<String> {
    pieces.iter().map(|p| p.iter().collect()).collect()
}

#[test]
fn texts_and_characters_convert_both_ways() {
    assert_eq!(to_chars("a€b"), vec!['a', '€', 'b']);
    assert_eq!(to_chars(""), Vec::<char>::new());
    assert_eq!(to_text(&['a', '€', 'b']), "a€b");
    assert_eq!(to_text(&[]), "");
}

#[test]
fn white_space_is_what_the_standard_library_says() {
    for code in 0..=0x3100u32 {
        if let Some(c) = char::from_u32(code) {
            assert_eq!(char_is_whitespace(c), c.is_whitespace(), "U+{:04X}", code);
        }
    }
    assert!(!char_is_whitespace('\u{FEFF}'));
    assert!(!char_is_whitespace(char::MAX));
}

#[test]
fn trim_agrees_with_the_standard_library() {
    for text in [
        "",
        " ",
        "a",
        "  a b  ",
        "\t\n x \r\n",
        "\u{3000}wide\u{2003}",
        "no-space",
        "   ",
        " a",
        "a ",
    ] {
        assert_eq!(to_text(trim(&chars(text))), text.trim(), "{:?}", text);
    }
}

#[test]
fn prefixes_agree_with_the_standard_library() {
    for (text, prefix) in [
        ("SELECT a", "SELECT"),
        ("SELECTSELECT a", "SELECT"),
        ("SELEC", "SELECT"),
        ("", "FROM"),
        ("FROM", "FROM"),
        ("FROMFROMFRO", "FROM"),
        ("aaaa", "aa"),
        ("aaa", "aa"),
        ("x", ""),
    ] {
        assert_eq!(
            starts_with(&chars(text), &chars(prefix)),
            text.starts_with(prefix),
            "{:?} {:?}",
            text,
            prefix
        );
        if !prefix.is_empty() {
            assert_eq!(
                to_text(trim_start_matches(&chars(text), &chars(prefix))),
                text.trim_start_matches(prefix),
                "{:?} {:?}",
                text,
                prefix
            );
        }
    }
    assert_eq!(to_text(trim_start_matches(&chars("abc"), &[])), "abc");
}

#[test]
fn an_empty_separator_leaves_the_text_in_one_piece() {
    assert_eq!(texts(split(&chars("abc"), &[])), vec!["abc"]);
    assert_eq!(texts(split(&[], &[])), vec![""]);
}

#[test]
fn split_agrees_with_the_standard_library() {
    for (text, separator) in [
        ("", ","),
        ("a", ","),
        ("a,b", ","),
        ("a,,b,", ","),
        (",", ","),
        ("FROM t |> WHERE x", "|>"),
        ("|>|>", "|>"),
        ("a|b>c", "|>"),
        ("aaa", "aa"),
        ("aaaa", "aa"),
        ("t ON a = b", "ON"),
        ("CONDITION ON ONE", "ON"),
        ("|", "|>"),
    ] {
        let expected: Vec<String> = text.split(separator).map(|p| p.to_string()).collect();
        assert_eq!(
            texts(split(&chars(text), &chars(separator))),
            expected,
            "{:?} {:?}",
            text,
            separator
        );
    }
}

#[test]
fn nodes_keep_their_texts() {
    assert_eq!(LogicalFilterNode::new("a > 1").condition, "a > 1");
    assert_eq!(LogicalScanNode::new("users").table_name, "users");
    assert_eq!(LogicalSelectListNode::new("name").field, "name");
    assert_eq!(LogicalOrderByNode::new("age").field, "age");
    let join = LogicalJoinNode::new("users", "orders", "id = user_id");
    assert_eq!(join.table1, "users");
    assert_eq!(join.table2, "orders");
    assert_eq!(join.condition, "id = user_id");
}

#[test]
fn a_parsing_error_shows_its_message() {
    let error = ParsingError::new("Empty SQL statement");
    assert_eq!(error.message, "Empty SQL statement");
    assert_eq!(error.to_string(), "ParsingError: Empty SQL statement");
    let converted: ParsingError = "from a text".to_string().into();
    assert_eq!(converted.message, "from a text");
}

#[test]
fn a_new_plan_has_no_clauses() {
    let plan = LogicalPlan::new("the query".to_string());
    assert_eq!(plan.query, "the query");
    assert!(plan.filters.is_empty());
    assert!(plan.joins.is_empty());
    assert!(plan.scans.is_empty());
    assert!(plan.select_list.is_empty());
    assert!(plan.order_by.is_empty());
}

#[test]
fn clauses_are_added_to_their_lists() {
    let mut plan = LogicalPlan::new(String::new());
    plan.add_scan(LogicalScanNode::new("users"));
    plan.parse_select("SELECT  name , age,id ").unwrap();
    plan.parse_select("SELECTSELECT x").unwrap();
    plan.parse_where("WHERE age > 30 ").unwrap();
    plan.parse_order_by("ORDER BY name").unwrap();
    plan.parse_join("JOIN orders ON users.id = orders.user_id", Some("users".to_string()))
        .unwrap();
    let fields: Vec<&str> = plan.select_list.iter().map(|n| n.field.as_str()).collect();
    assert_eq!(fields, vec!["name", "age", "id", "x"]);
    assert_eq!(plan.scans.len(), 1);
    assert_eq!(plan.scans[0].table_name, "users");
    assert_eq!(plan.filters.len(), 1);
    assert_eq!(plan.filters[0].condition, "age > 30");
    assert_eq!(plan.order_by.len(), 1);
    assert_eq!(plan.order_by[0].field, "name");
    assert_eq!(plan.joins.len(), 1);
    assert_eq!(plan.joins[0].table1, "users");
    assert_eq!(plan.joins[0].table2, "orders");
    assert_eq!(plan.joins[0].condition, "users.id = orders.user_id");
}

#[test]
fn an_empty_select_clause_adds_one_empty_field() {
    let mut plan = LogicalPlan::new(String::new());
    plan.parse_select("SELECT").unwrap();
    assert_eq!(plan.select_list.len(), 1);
    assert_eq!(plan.select_list[0].field, "");
}

#[test]
fn a_join_needs_one_condition_and_a_table_read_before() {
    let mut plan = LogicalPlan::new(String::new());
    let error = plan
        .parse_join("JOIN orders", Some("users".to_string()))
        .unwrap_err();
    assert_eq!(
        error.message,
        "Invalid JOIN syntax. Expected: JOIN table ON condition"
    );
    let error = plan
        .parse_join("JOIN a ON b ON c", Some("users".to_string()))
        .unwrap_err();
    assert_eq!(
        error.message,
        "Invalid JOIN syntax. Expected: JOIN table ON condition"
    );
    let error = plan.parse_join("JOIN orders ON a = b", None).unwrap_err();
    assert_eq!(error.message, "JOIN must have a preceding FROM clause");
    assert!(plan.joins.is_empty());
}

#[test]
fn a_query_is_parsed_clause_by_clause() {
    let query = "  FROM users |> JOIN orders ON users.id = orders.user_id |> WHERE age > 30 \
                 |> SELECT name, age |> ORDER BY name\n";
    let plan = parse_pipe_sql(query).unwrap();
    assert_eq!(plan.query, query);
    assert_eq!(plan.scans.len(), 1);
    assert_eq!(plan.scans[0].table_name, "users");
    assert_eq!(plan.joins.len(), 1);
    assert_eq!(plan.joins[0].table1, "users");
    assert_eq!(plan.joins[0].table2, "orders");
    assert_eq!(plan.joins[0].condition, "users.id = orders.user_id");
    assert_eq!(plan.filters.len(), 1);
    assert_eq!(plan.filters[0].condition, "age > 30");
    let fields: Vec<&str> = plan.select_list.iter().map(|n| n.field.as_str()).collect();
    assert_eq!(fields, vec!["name", "age"]);
    assert_eq!(plan.order_by.len(), 1);
    assert_eq!(plan.order_by[0].field, "name");

    let physical = convert_to_physical_plan(&plan);
    assert_eq!(physical.query, query);
    assert_eq!(
        physical.operations,
        vec![
            "SCAN TABLE users",
            "JOIN orders ON users.id = orders.user_id = users",
            "FILTER WHERE age > 30",
            "PROJECT name",
            "PROJECT age",
            "ORDER BY name",
        ]
    );
}

#[test]
fn a_join_takes_the_table_of_the_last_from_clause() {
    let plan = parse_pipe_sql("FROM a |> FROM b |> JOIN c ON x = y").unwrap();
    assert_eq!(plan.scans.len(), 2);
    assert_eq!(plan.joins[0].table1, "b");
    assert_eq!(plan.joins[0].table2, "c");
    assert_eq!(plan.joins[0].condition, "x = y");
}

#[test]
fn queries_that_cannot_be_parsed_give_their_error() {
    let error = parse_pipe_sql("JOIN b ON x = y").unwrap_err();
    assert_eq!(error.message, "JOIN must follow a FROM clause");

    let error = parse_pipe_sql("FROM a |> JOIN b").unwrap_err();
    assert_eq!(
        error.message,
        "Invalid JOIN syntax. Expected: JOIN table ON condition"
    );

    let error = parse_pipe_sql("FROM a |> LIMIT 3 |> WHERE x").unwrap_err();
    assert_eq!(error.message, "Unsupported SQL component: LIMIT 3");

    let error = parse_pipe_sql("").unwrap_err();
    assert_eq!(error.message, "Unsupported SQL component: ");

    let error = parse_pipe_sql("FROM a |>").unwrap_err();
    assert_eq!(error.message, "Unsupported SQL component: ");

    let error = parse_pipe_sql("from a").unwrap_err();
    assert_eq!(error.message, "Unsupported SQL component: from a");
}

#[test]
fn the_operations_of_an_empty_plan_are_none() {
    let physical = convert_to_physical_plan(&LogicalPlan::new("q".to_string()));
    assert_eq!(physical.query, "q");
    assert!(physical.operations.is_empty());
}

#[test]
fn operations_come_by_kind_and_then_in_the_order_of_the_query() {
    let plan = parse_pipe_sql("SELECT z |> WHERE b |> FROM t2 |> WHERE a |> FROM t1").unwrap();
    assert_eq!(
        convert_to_physical_plan(&plan).operations,
        vec![
            "SCAN TABLE t2",
            "SCAN TABLE t1",
            "FILTER WHERE b",
            "FILTER WHERE a",
            "PROJECT z",
        ]
    );
}
