//! PPMd7 (PPMdH): the model and its symbol coder over the carryless range coder.

pub mod model;
pub mod units;
pub mod grow;
pub mod coder;
