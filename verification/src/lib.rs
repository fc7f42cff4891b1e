//! The verified core of a small duck robot: who may move it, what its policies and
//! experiments are allowed to do next, what its sensors mean, and what it sings.
//!
//! Everything here computes on plain values. Files, sockets, processes, clocks and the
//! motor bus stay with the caller, which hands this crate what they said and carries out
//! what it decides.

pub mod bank;
pub mod calibration;
pub mod chorale;
pub mod control;
pub mod control_owner;
pub mod custom_policy;
pub mod experiment;
pub mod experiment_tasks;
pub mod hex;
pub mod models;
pub mod net;
pub mod number;
pub mod outside;
pub mod path;
pub mod policy_experiment;
pub mod program;
pub mod rng;
pub mod scan;
pub mod soc;
pub mod sound;
pub mod task_input;
pub mod theremin;
pub mod tof;
pub mod volume;
