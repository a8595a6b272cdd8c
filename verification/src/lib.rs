//! Installing a Kiln-managed system on a disk: every decision the installer
//! makes, apart from the terminal, the processes and the files it makes them
//! about.
//!
//! | module | what it decides |
//! |---|---|
//! | `cli` | what the arguments ask for, and how the program ends |
//! | `preflight` | whether a question is worth asking |
//! | `block` | which disks there are, and which may be erased |
//! | `catalog` | what there is to choose from |
//! | `keys`, `tui`, `widgets` | what a key means, what a screen looks like, and what it replies |
//! | `rules`, `screens`, `interview` | what is asked, in which order, and what is accepted |
//! | `config` | what the configuration says |
//! | `plan`, `steps` | what the install consists of, and what follows from what |
//! | `run` | what is run, logged and said |
//! | `text`, `path` | what a string is |

pub mod block;
pub mod catalog;
pub mod cli;
pub mod config;
pub mod interview;
pub mod keys;
pub mod path;
pub mod plan;
pub mod preflight;
pub mod rules;
pub mod run;
pub mod screens;
pub mod steps;
pub mod text;
pub mod tui;
pub mod widgets;
