//! The syntax tree of SQL statements, and its mathematical values.
use crate::catalog::ColType;
use vstd::prelude::*;

verus! {

/// A statement.
#[derive(Debug)]
pub enum Stmt {
    CreateTable(CreateTableStmt),
    Insert(InsertStmt),
    Select(SelectStmt),
    Update(UpdateStmt),
    Delete(DeleteStmt),
}

// ── CREATE TABLE ─────────────────────────────────────────────────────────────

#[derive(Debug)]
pub struct CreateTableStmt {
    pub table_name: String,
    pub columns: Vec<ColumnDef>,
}

#[derive(Debug)]
pub struct ColumnDef {
    pub name: String,
    pub col_type: ColType,
}

// ── INSERT ───────────────────────────────────────────────────────────────────

#[derive(Debug)]
pub struct InsertStmt {
    pub table_name: String,
    pub columns: Vec<String>,
    pub rows: Vec<Vec<Value>>,
}

// ── SELECT ───────────────────────────────────────────────────────────────────

#[derive(Debug)]
pub struct SelectStmt {
    pub table_name: String,
    pub columns: SelectColumns,
    pub joins: Vec<JoinClause>,
    pub where_clause: Option<Expr>,
    pub order_by: Vec<OrderByClause>,
    pub limit: Option<usize>,
}

#[derive(Debug)]
pub enum SelectColumns {
    Star,
    Named(Vec<ColumnRef>),
}

/// A column named in a select list: `column` or `table.column`.
#[derive(Debug)]
pub struct ColumnRef {
    pub table: Option<String>,
    pub column: String,
}

#[derive(Debug, Clone, Copy, PartialEq, Eq, Structural)]
pub enum JoinType {
    Inner,
    Left,
}

#[derive(Debug)]
pub struct JoinClause {
    pub join_type: JoinType,
    pub table_name: String,
    pub on: JoinCondition,
}

/// `ON left_table.left_col = right_table.right_col`
#[derive(Debug)]
pub struct JoinCondition {
    pub left_table: String,
    pub left_col: String,
    pub right_table: String,
    pub right_col: String,
}

#[derive(Debug)]
pub struct OrderByClause {
    pub column: String,
    pub direction: OrderDirection,
}

#[derive(Debug, Clone, Copy, PartialEq, Eq, Structural)]
pub enum OrderDirection {
    Asc,
    Desc,
}

// ── UPDATE ───────────────────────────────────────────────────────────────────

#[derive(Debug)]
pub struct UpdateStmt {
    pub table_name: String,
    pub assignments: Vec<Assignment>,
    pub where_clause: Option<Expr>,
}

#[derive(Debug)]
pub struct Assignment {
    pub column: String,
    pub value: Value,
}

// ── DELETE ───────────────────────────────────────────────────────────────────

#[derive(Debug)]
pub struct DeleteStmt {
    pub table_name: String,
    pub where_clause: Option<Expr>,
}

// ── Expressions (WHERE) ──────────────────────────────────────────────────────

#[derive(Debug)]
pub enum Expr {
    Comparison { column: String, op: CmpOp, value: Value },
    And(Box<Expr>, Box<Expr>),
    Or(Box<Expr>, Box<Expr>),
}

#[derive(Debug, Clone, Copy, PartialEq, Eq, Structural)]
pub enum CmpOp {
    Eq,
    NotEq,
    Lt,
    Lte,
    Gt,
    Gte,
}

// ── Values ───────────────────────────────────────────────────────────────────

#[derive(Debug, PartialEq)]
pub enum Value {
    Integer(i64),
    Text(String),
    Null,
}

// ── Mathematical values ──────────────────────────────────────────────────────

pub enum ValueV {
    Integer(i64),
    Text(Seq<char>),
    Null,
}

pub enum ExprV {
    Comparison { column: Seq<char>, op: CmpOp, value: ValueV },
    And(Box<ExprV>, Box<ExprV>),
    Or(Box<ExprV>, Box<ExprV>),
}

pub struct ColumnDefV {
    pub name: Seq<char>,
    pub col_type: ColType,
}

pub struct ColumnRefV {
    pub table: Option<Seq<char>>,
    pub column: Seq<char>,
}

pub enum SelectColumnsV {
    Star,
    Named(Seq<ColumnRefV>),
}

pub struct JoinConditionV {
    pub left_table: Seq<char>,
    pub left_col: Seq<char>,
    pub right_table: Seq<char>,
    pub right_col: Seq<char>,
}

pub struct JoinClauseV {
    pub join_type: JoinType,
    pub table_name: Seq<char>,
    pub on: JoinConditionV,
}

pub struct OrderByClauseV {
    pub column: Seq<char>,
    pub direction: OrderDirection,
}

pub struct AssignmentV {
    pub column: Seq<char>,
    pub value: ValueV,
}

pub struct SelectStmtV {
    pub table_name: Seq<char>,
    pub columns: SelectColumnsV,
    pub joins: Seq<JoinClauseV>,
    pub where_clause: Option<ExprV>,
    pub order_by: Seq<OrderByClauseV>,
    pub limit: Option<usize>,
}

pub enum StmtV {
    CreateTable { table_name: Seq<char>, columns: Seq<ColumnDefV> },
    Insert { table_name: Seq<char>, columns: Seq<Seq<char>>, rows: Seq<Seq<ValueV>> },
    Select(SelectStmtV),
    Update { table_name: Seq<char>, assignments: Seq<AssignmentV>, where_clause: Option<ExprV> },
    Delete { table_name: Seq<char>, where_clause: Option<ExprV> },
}

impl View for Value {
    type V = ValueV;

    open spec fn view(&self) -> ValueV {
        match self {
            Value::Integer(n) => ValueV::Integer(*n),
            Value::Text(s) => ValueV::Text(s@),
            Value::Null => ValueV::Null,
        }
    }
}

pub open spec fn expr_view(e: Expr) -> ExprV
    decreases e,
{
    match e {
        Expr::Comparison { column, op, value } => ExprV::Comparison {
            column: column@,
            op,
            value: value@,
        },
        Expr::And(l, r) => ExprV::And(Box::new(expr_view(*l)), Box::new(expr_view(*r))),
        Expr::Or(l, r) => ExprV::Or(Box::new(expr_view(*l)), Box::new(expr_view(*r))),
    }
}

impl View for Expr {
    type V = ExprV;

    open spec fn view(&self) -> ExprV {
        expr_view(*self)
    }
}

pub open spec fn opt_expr_view(e: Option<Expr>) -> Option<ExprV> {
    match e {
        Some(x) => Some(x@),
        None => None,
    }
}

impl View for ColumnDef {
    type V = ColumnDefV;

    open spec fn view(&self) -> ColumnDefV {
        ColumnDefV { name: self.name@, col_type: self.col_type }
    }
}

impl View for ColumnRef {
    type V = ColumnRefV;

    open spec fn view(&self) -> ColumnRefV {
        ColumnRefV {
            table: match self.table {
                Some(t) => Some(t@),
                None => None,
            },
            column: self.column@,
        }
    }
}

impl View for SelectColumns {
    type V = SelectColumnsV;

    open spec fn view(&self) -> SelectColumnsV {
        match self {
            SelectColumns::Star => SelectColumnsV::Star,
            SelectColumns::Named(v) => SelectColumnsV::Named(v@.map_values(|c: ColumnRef| c@)),
        }
    }
}

impl View for JoinCondition {
    type V = JoinConditionV;

    open spec fn view(&self) -> JoinConditionV {
        JoinConditionV {
            left_table: self.left_table@,
            left_col: self.left_col@,
            right_table: self.right_table@,
            right_col: self.right_col@,
        }
    }
}

impl View for JoinClause {
    type V = JoinClauseV;

    open spec fn view(&self) -> JoinClauseV {
        JoinClauseV { join_type: self.join_type, table_name: self.table_name@, on: self.on@ }
    }
}

impl View for OrderByClause {
    type V = OrderByClauseV;

    open spec fn view(&self) -> OrderByClauseV {
        OrderByClauseV { column: self.column@, direction: self.direction }
    }
}

impl View for Assignment {
    type V = AssignmentV;

    open spec fn view(&self) -> AssignmentV {
        AssignmentV { column: self.column@, value: self.value@ }
    }
}

/// The texts of a sequence of strings.
pub open spec fn strings_view(v: Seq<String>) -> Seq<Seq<char>> {
    v.map_values(|s: String| s@)
}

/// The values of a sequence of rows of values.
pub open spec fn rows_view(rows: Seq<Vec<Value>>) -> Seq<Seq<ValueV>> {
    rows.map_values(|r: Vec<Value>| r@.map_values(|v: Value| v@))
}

impl View for SelectStmt {
    type V = SelectStmtV;

    open spec fn view(&self) -> SelectStmtV {
        SelectStmtV {
            table_name: self.table_name@,
            columns: self.columns@,
            joins: self.joins@.map_values(|j: JoinClause| j@),
            where_clause: opt_expr_view(self.where_clause),
            order_by: self.order_by@.map_values(|o: OrderByClause| o@),
            limit: self.limit,
        }
    }
}

impl View for Stmt {
    type V = StmtV;

    open spec fn view(&self) -> StmtV {
        match self {
            Stmt::CreateTable(s) => StmtV::CreateTable {
                table_name: s.table_name@,
                columns: s.columns@.map_values(|c: ColumnDef| c@),
            },
            Stmt::Insert(s) => StmtV::Insert {
                table_name: s.table_name@,
                columns: strings_view(s.columns@),
                rows: rows_view(s.rows@),
            },
            Stmt::Select(s) => StmtV::Select(s@),
            Stmt::Update(s) => StmtV::Update {
                table_name: s.table_name@,
                assignments: s.assignments@.map_values(|a: Assignment| a@),
                where_clause: opt_expr_view(s.where_clause),
            },
            Stmt::Delete(s) => StmtV::Delete {
                table_name: s.table_name@,
                where_clause: opt_expr_view(s.where_clause),
            },
        }
    }
}

impl ColumnRef {
    /// `table.column`
    pub fn qualified(table: &str, column: &str) -> (r: ColumnRef)
        ensures
            r@ == (ColumnRefV { table: Some(table@), column: column@ }),
    {
        ColumnRef { table: Some(table.to_owned()), column: column.to_owned() }
    }

    /// `column`, with no table.
    pub fn unqualified(column: &str) -> (r: ColumnRef)
        ensures
            r@ == (ColumnRefV { table: None, column: column@ }),
    {
        ColumnRef { table: None, column: column.to_owned() }
    }

    /// The name under which the column is shown in a result: the column
    /// without its table.
    pub fn display_name(&self) -> (r: String)
        ensures
            r@ == self.column@,
    {
        self.column.clone()
    }
}

impl Value {
    /// A copy of the value.
    pub fn duplicate(&self) -> (r: Value)
        ensures
            r@ == self@,
    {
        match self {
            Value::Integer(n) => Value::Integer(*n),
            Value::Text(s) => Value::Text(s.clone()),
            Value::Null => Value::Null,
        }
    }
}

} // verus!
