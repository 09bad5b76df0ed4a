pub mod utils;
pub mod validator;
