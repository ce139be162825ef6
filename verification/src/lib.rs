pub mod bits;
pub mod error;
pub mod grader;
pub mod parse;
pub mod task;
pub mod util;
pub mod text;
pub mod vm;

pub use error::Error;
pub use grader::do_grade;
pub use parse::check_valid_extension;
