pub mod pegb;
pub mod pegc;
pub mod pegvm;
pub mod walk;
pub mod highlight;
pub mod parser;
pub mod languages;
pub mod report;
pub mod messages;
