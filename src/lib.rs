pub mod accessor;
pub mod archetype;
pub mod cmd;
pub mod component;
pub mod entity;
pub mod query;
pub mod storage;
pub mod system;
pub mod universe;
