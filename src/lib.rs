pub mod choicepoint;
pub mod compiler;
pub mod descriptor;
pub mod end_user_executor;
pub mod environment;
pub mod instructions;
pub mod interpreter;
pub mod laws;
pub mod occurrence;
pub mod parsing;
pub mod solution;
pub mod terms;
pub mod traversal;
