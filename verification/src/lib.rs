pub mod assembly;
pub mod ast;
pub mod instruction;
pub mod intermediate;
pub mod interpreter;
pub mod translator;
pub mod value;
pub mod parser;
pub mod semantic_verifier;
pub mod text;
