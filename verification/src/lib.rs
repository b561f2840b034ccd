//! The host side of the GPU kernel gates: what a gate reads, compares and
//! decides, with no device code. A gate runs a kernel on a card, holds what
//! came back against a reference dump or a host rule, and prints one line per
//! check; everything here is a function of the bytes, texts and counts it is
//! handed. Floats pass through by their bits: a distance, a band or a logit is
//! compared and ordered here, and computed by the caller.
//!
//! - Reference sets: [`naming`] gives a dump's files their names, [`manifest`]
//!   reads its rows, [`set`] and [`index`] find them, [`files`] reads and proves
//!   the files, [`oracle`] lists each architecture's sets and [`model_file`]
//!   holds the facts of the model file the gates read.
//! - Comparisons: [`bits`] orders and compares floats by their bits, [`block`]
//!   the taps of a block, [`prompts`] greedy and forced ids, [`kld`] and
//!   [`kld_diff`] base files of log-probabilities, [`rank`] the largest of a
//!   list, [`gate`] the digest and the words every gate prints.
//! - Kernels: [`ptx`] and [`oxart`] read the device code an executable carries,
//!   [`nodes`] a captured graph, [`qwen3moe`], [`planes`], [`router`], [`real_x`],
//!   [`rawx`], [`vision`] and [`vision_rules`] what the kernel gates check,
//!   [`ik_q8_2`] and [`rounding`] the integer rules they share.
//! - Generation: [`decode`], [`generate`], [`draft`], [`dspark`], [`finite`],
//!   [`step_stats`] and [`decoder`] are the decisions of a decode, [`serve`] the
//!   engine a server asks, [`bind`] and [`ds41_meta`] what a server and a model
//!   file say of it, [`cli`] and [`probe_args`] the command lines.
//!
//! [`text`] and [`count`] are what the readers are written with.
use vstd::prelude::*;

pub mod bind;
pub mod bits;
pub mod block;
pub mod cli;
pub mod count;
pub mod decode;
pub mod decoder;
pub mod draft;
pub mod ds41_meta;
pub mod dspark;
pub mod files;
pub mod finite;
pub mod gate;
pub mod generate;
pub mod ik_q8_2;
pub mod index;
pub mod kld;
pub mod kld_diff;
pub mod manifest;
pub mod model_file;
pub mod naming;
pub mod nodes;
pub mod oracle;
pub mod oxart;
pub mod planes;
pub mod probe_args;
pub mod prompts;
pub mod ptx;
pub mod qwen3moe;
pub mod rank;
pub mod rawx;
pub mod real_x;
pub mod rounding;
pub mod router;
pub mod serve;
pub mod set;
pub mod step_stats;
pub mod text;
pub mod vision;
pub mod vision_rules;

verus! {

} // verus!
