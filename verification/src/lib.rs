pub mod app;
pub mod error;
pub mod hosts;
pub mod input;
pub mod proxy;
pub mod routing;
