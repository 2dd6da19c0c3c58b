//! Discovery of prompt-template skills kept in markdown files.
//!
//! A skill is a prompt template with a name and a description. `skill` reads one from the text of
//! a markdown file. `scan` searches a directory for such files, `git` fetches a repository and
//! searches it, `plan` lists the places to search, and `discovery` searches them all and puts what
//! it finds into a `catalog`, in which the first skill of a name wins.
//!
//! The library does no input or output: `scan`, `git` and `discovery` are machines that hand out a
//! `request` and go on with its reply.

pub mod catalog;
pub mod discovery;
pub mod git;
pub mod outside;
pub mod path;
pub mod plan;
pub mod request;
pub mod scan;
pub mod skill;
pub mod text;

pub use crate::discovery::discover_skills;
pub use crate::path::SkillPath;
pub use crate::skill::{parse_skill_file, DiscoveredSkill};
