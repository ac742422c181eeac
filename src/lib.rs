pub mod chunk;
pub mod debug;
pub mod opcode;
pub mod scanner;
pub mod text;
pub mod token;
pub mod vm;
