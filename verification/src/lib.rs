//! A model of restaurants that compete for customers in a virtual town.
//!
//! Managers and customers are asked questions, and a language model, or a script, answers for
//! them. Everything else is computed here: what is asked and what is read from the answers, the
//! visits, the takings, what is measured and what is recorded. Numbers are binary64 numbers,
//! computed bit by bit.
pub mod accuracy;
pub mod apportionment;
pub mod binary64;
pub mod bounds;
pub mod choice;
pub mod chronicle;
pub mod config;
pub mod course;
pub mod day;
pub mod decisions;
pub mod digits;
pub mod estimates;
pub mod experiments;
pub mod figures;
pub mod gatherings;
pub mod habits;
pub mod hashing;
pub mod inequality;
pub mod magnitude;
pub mod mechanisms;
pub mod metrics;
pub mod numerals;
pub mod openings;
pub mod patronage;
pub mod popularity;
pub mod prompts;
pub mod quotient;
pub mod readback;
pub mod reading;
pub mod record;
pub mod reflection;
pub mod replies;
pub mod reproduce_mock;
pub mod reward;
pub mod rounding;
pub mod servings;
pub mod settling;
pub mod shortest;
pub mod simulation;
pub mod surveys;
pub mod tallies;
pub mod tellings;
pub mod text;
pub mod world;
pub mod writing;
