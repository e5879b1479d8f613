use vstd::prelude::*;

use crate::text::same_text;

verus! {

/// The kinds of syntax nodes that the language server tells apart.
#[derive(Clone, Copy, Debug, PartialEq, Eq, Structural)]
pub enum NodeKind {
    SourceFile,
    ModuleItem,
    FunctionItem,
    FunctionLit,
    VarDeclaration,
    LetExpression,
    LetBlock,
    AssignBlock,
    ForBlock,
    IntersectionForBlock,
    ForClause,
    IfClause,
    Each,
    LetPrefix,
    Arguments,
    ModuleCall,
    FunctionCall,
    DotIndexExpression,
    Assignment,
    Assignments,
    ConditionUpdateClause,
    Identifier,
    SpecialVariable,
    Parameter,
    Parameters,
    IncludePath,
    IncludeStatement,
    UseStatement,
    LineComment,
    BlockComment,
    Error,
    /// Any other kind.
    Other,
}

impl NodeKind {
    /// The kind that a name in the grammar stands for.
    pub open spec fn of(name: Seq<char>) -> NodeKind {
        if name == "source_file"@ {
            NodeKind::SourceFile
        } else if name == "module_item"@ {
            NodeKind::ModuleItem
        } else if name == "function_item"@ {
            NodeKind::FunctionItem
        } else if name == "function_lit"@ {
            NodeKind::FunctionLit
        } else if name == "var_declaration"@ {
            NodeKind::VarDeclaration
        } else if name == "let_expression"@ {
            NodeKind::LetExpression
        } else if name == "let_block"@ {
            NodeKind::LetBlock
        } else if name == "assign_block"@ {
            NodeKind::AssignBlock
        } else if name == "for_block"@ {
            NodeKind::ForBlock
        } else if name == "intersection_for_block"@ {
            NodeKind::IntersectionForBlock
        } else if name == "for_clause"@ {
            NodeKind::ForClause
        } else if name == "if_clause"@ {
            NodeKind::IfClause
        } else if name == "each"@ {
            NodeKind::Each
        } else if name == "let_prefix"@ {
            NodeKind::LetPrefix
        } else if name == "arguments"@ {
            NodeKind::Arguments
        } else if name == "module_call"@ {
            NodeKind::ModuleCall
        } else if name == "function_call"@ {
            NodeKind::FunctionCall
        } else if name == "dot_index_expression"@ {
            NodeKind::DotIndexExpression
        } else if name == "assignment"@ {
            NodeKind::Assignment
        } else if name == "assignments"@ {
            NodeKind::Assignments
        } else if name == "condition_update_clause"@ {
            NodeKind::ConditionUpdateClause
        } else if name == "identifier"@ {
            NodeKind::Identifier
        } else if name == "special_variable"@ {
            NodeKind::SpecialVariable
        } else if name == "parameter"@ {
            NodeKind::Parameter
        } else if name == "parameters"@ {
            NodeKind::Parameters
        } else if name == "include_path"@ {
            NodeKind::IncludePath
        } else if name == "include_statement"@ {
            NodeKind::IncludeStatement
        } else if name == "use_statement"@ {
            NodeKind::UseStatement
        } else if name == "line_comment"@ {
            NodeKind::LineComment
        } else if name == "block_comment"@ {
            NodeKind::BlockComment
        } else if name == "ERROR"@ {
            NodeKind::Error
        } else {
            NodeKind::Other
        }
    }

    /// The kind that a name in the grammar stands for.
    pub fn from_name(name: &str) -> (kind: NodeKind)
        ensures
            kind == NodeKind::of(name@),
    {
        if same_text(name, "source_file") {
            NodeKind::SourceFile
        } else if same_text(name, "module_item") {
            NodeKind::ModuleItem
        } else if same_text(name, "function_item") {
            NodeKind::FunctionItem
        } else if same_text(name, "function_lit") {
            NodeKind::FunctionLit
        } else if same_text(name, "var_declaration") {
            NodeKind::VarDeclaration
        } else if same_text(name, "let_expression") {
            NodeKind::LetExpression
        } else if same_text(name, "let_block") {
            NodeKind::LetBlock
        } else if same_text(name, "assign_block") {
            NodeKind::AssignBlock
        } else if same_text(name, "for_block") {
            NodeKind::ForBlock
        } else if same_text(name, "intersection_for_block") {
            NodeKind::IntersectionForBlock
        } else if same_text(name, "for_clause") {
            NodeKind::ForClause
        } else if same_text(name, "if_clause") {
            NodeKind::IfClause
        } else if same_text(name, "each") {
            NodeKind::Each
        } else if same_text(name, "let_prefix") {
            NodeKind::LetPrefix
        } else if same_text(name, "arguments") {
            NodeKind::Arguments
        } else if same_text(name, "module_call") {
            NodeKind::ModuleCall
        } else if same_text(name, "function_call") {
            NodeKind::FunctionCall
        } else if same_text(name, "dot_index_expression") {
            NodeKind::DotIndexExpression
        } else if same_text(name, "assignment") {
            NodeKind::Assignment
        } else if same_text(name, "assignments") {
            NodeKind::Assignments
        } else if same_text(name, "condition_update_clause") {
            NodeKind::ConditionUpdateClause
        } else if same_text(name, "identifier") {
            NodeKind::Identifier
        } else if same_text(name, "special_variable") {
            NodeKind::SpecialVariable
        } else if same_text(name, "parameter") {
            NodeKind::Parameter
        } else if same_text(name, "parameters") {
            NodeKind::Parameters
        } else if same_text(name, "include_path") {
            NodeKind::IncludePath
        } else if same_text(name, "include_statement") {
            NodeKind::IncludeStatement
        } else if same_text(name, "use_statement") {
            NodeKind::UseStatement
        } else if same_text(name, "line_comment") {
            NodeKind::LineComment
        } else if same_text(name, "block_comment") {
            NodeKind::BlockComment
        } else if same_text(name, "ERROR") {
            NodeKind::Error
        } else {
            NodeKind::Other
        }
    }

    /// Whether nodes of this kind bring another file in.
    pub open spec fn dependency_statement(self) -> bool {
        self is IncludeStatement || self is UseStatement
    }

    /// Whether nodes of this kind bring another file in.
    pub fn is_dependency_statement(self) -> (r: bool)
        ensures
            r == self.dependency_statement(),
    {
        match self {
            NodeKind::IncludeStatement | NodeKind::UseStatement => true,
            _ => false,
        }
    }

    /// Whether nodes of this kind are comments.
    pub open spec fn comment(self) -> bool {
        self is LineComment || self is BlockComment
    }

    /// Whether nodes of this kind are comments.
    pub fn is_comment(self) -> (r: bool)
        ensures
            r == self.comment(),
    {
        match self {
            NodeKind::LineComment | NodeKind::BlockComment => true,
            _ => false,
        }
    }

    /// Whether nodes of this kind call a module or a function.
    pub open spec fn call(self) -> bool {
        self is ModuleCall || self is FunctionCall
    }

    /// Whether nodes of this kind call a module or a function.
    pub fn is_call(self) -> (r: bool)
        ensures
            r == self.call(),
    {
        match self {
            NodeKind::ModuleCall | NodeKind::FunctionCall => true,
            _ => false,
        }
    }
}

/// The roles that a child can have in its parent.
#[derive(Clone, Copy, Debug, PartialEq, Eq, Structural)]
pub enum Field {
    Name,
    Value,
    Parameters,
    Arguments,
    Index,
    Initializer,
    Condition,
    Update,
    /// Any other role.
    Other,
}

impl Field {
    /// The role that a name in the grammar stands for.
    pub open spec fn of(name: Seq<char>) -> Field {
        if name == "name"@ {
            Field::Name
        } else if name == "value"@ {
            Field::Value
        } else if name == "parameters"@ {
            Field::Parameters
        } else if name == "arguments"@ {
            Field::Arguments
        } else if name == "index"@ {
            Field::Index
        } else if name == "initializer"@ {
            Field::Initializer
        } else if name == "condition"@ {
            Field::Condition
        } else if name == "update"@ {
            Field::Update
        } else {
            Field::Other
        }
    }

    /// The role that a name in the grammar stands for.
    pub fn from_name(name: &str) -> (field: Field)
        ensures
            field == Field::of(name@),
    {
        if same_text(name, "name") {
            Field::Name
        } else if same_text(name, "value") {
            Field::Value
        } else if same_text(name, "parameters") {
            Field::Parameters
        } else if same_text(name, "arguments") {
            Field::Arguments
        } else if same_text(name, "index") {
            Field::Index
        } else if same_text(name, "initializer") {
            Field::Initializer
        } else if same_text(name, "condition") {
            Field::Condition
        } else if same_text(name, "update") {
            Field::Update
        } else {
            Field::Other
        }
    }
}

} // verus!
