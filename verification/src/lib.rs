pub mod pp;
pub mod validator;
pub mod wgsl_error;
