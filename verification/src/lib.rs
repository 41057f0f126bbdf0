//! A relayer that stands between the TPU and the validators it fronts.
//!
//! Transactions come in over QUIC ([`tpu`]), those whose signatures do not verify are marked
//! ([`sigverify_stage`]), and what is left is forwarded to the validators that are connected
//! ([`relayer`], [`forward`], [`delivery`]), each by the policy that it pushed itself ([`pbp`],
//! [`policy`], [`digest`]). Who may connect is told by a control plane ([`control`], [`sse`]). What
//! becomes of the packets is counted ([`metrics`], [`latency`]). A relayer can be looked at from outside
//! ([`probe`]).

use vstd::prelude::*;

pub mod control;
pub mod delivery;
pub mod digest;
pub mod forward;
pub mod hex;
pub mod latency;
pub mod metrics;
pub mod order;
pub mod packet;
pub mod pbp;
pub mod policy;
pub mod policy_text;
pub mod probe;
pub mod pubkey;
pub mod relayer;
pub mod sigverify_stage;
pub mod sse;
pub mod text;
pub mod tpu;
pub mod tx_decode;

verus! {

} // verus!
