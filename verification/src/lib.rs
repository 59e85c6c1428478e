pub mod ast;
pub mod astbuilder;
pub mod codereader;
pub mod dlogger;
pub mod token;

pub use astbuilder::construct_ast;

