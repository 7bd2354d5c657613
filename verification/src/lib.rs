//! Brute-force search for a commit message whose commit object hashes to a
//! chosen prefix.
//!
//! A template such as `{fix|Fix}: {the|a} {bug|issue}` describes a set of
//! candidate messages. The template is parsed into a tree ([`template`]),
//! the tree is cut into slots of packed variations ([`expand`], [`compile`],
//! [`slot`]), an odometer walks every combination of slot selections
//! ([`odometer`]), and each candidate is framed as a commit object
//! ([`envelope`]), hashed and compared with the target ([`digest`],
//! [`target`], [`candidate`]). [`space`] relates the number of candidates to
//! the template.
//!
//! The flat index space is cut into chunks that the workers of a search take
//! in turn. A [`worker`] is a state machine that a driver steps; [`mining`]
//! runs one by itself.

pub mod candidate;
pub mod compile;
pub mod digest;
pub mod envelope;
pub mod expand;
pub mod mining;
pub mod odometer;
pub mod slot;
pub mod space;
pub mod target;
pub mod template;
pub mod worker;
