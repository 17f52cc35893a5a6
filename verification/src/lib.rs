pub mod generator;
pub mod matchmaking;
pub mod orchestration;
pub mod prelude;
pub mod validator;
