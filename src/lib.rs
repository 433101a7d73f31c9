//! Small puzzle solvers: password policies, passport fields, a graph of
//! nested bags, and chains of joltage adapters.

pub mod adapters;
pub mod bag_rules;
pub mod bags;
pub mod passport;
pub mod password;
pub mod text;
