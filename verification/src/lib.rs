//! A propositional logic calculator: formulas are parsed, turned into
//! conjunctive normal form, collected into a knowledge base of clauses and
//! simplified, with every step proved to keep the meaning of the formulas.
pub mod variable;
pub mod expression;
pub mod names;
pub mod parser;
pub mod knowledge_base;
pub mod simplify;
pub mod workspace;

pub use variable::Variable;
pub use expression::{Expression, ExpressionNode};
pub use names::VariableNames;
pub use parser::{ExpressionParser, ExpressionParserToken, ExpressionParseError};
pub use knowledge_base::{KnowledgeBase, KnowledgeBaseFact, KnowledgeBaseLiteral};
pub use workspace::{ExpressionSet, Workspace};
