//! Pluggable tiering policies.
//!
//! A policy inspects the inventory and current free space and returns an
//! ordered list of [`Move`]s. The daemon executes them in order, so a policy
//! expresses its dispatch priority simply by the order it emits moves.

pub mod access_time;
pub mod effects;
pub mod laws;

use crate::config::Config;
use crate::inventory::Inventory;
use crate::text::{chars_of, spells};
use crate::tier::TierMap;
use vstd::prelude::*;

verus! {

/// A planned relocation of one file from one branch to another.
#[derive(Debug)]
pub struct Move {
    pub rel: Vec<u8>,
    pub size: u64,
    pub src_branch_idx: usize,
    pub dst_branch_idx: usize,
    pub atime: i128,
    pub mtime: i128,
    pub reason: String,
}

/// A move with its path and reason as sequences.
pub struct MoveView {
    pub rel: Seq<u8>,
    pub size: u64,
    pub src_branch_idx: usize,
    pub dst_branch_idx: usize,
    pub atime: i128,
    pub mtime: i128,
    pub reason: Seq<char>,
}

impl View for Move {
    type V = MoveView;

    open spec fn view(&self) -> MoveView {
        MoveView {
            rel: self.rel@,
            size: self.size,
            src_branch_idx: self.src_branch_idx,
            dst_branch_idx: self.dst_branch_idx,
            atime: self.atime,
            mtime: self.mtime,
            reason: self.reason@,
        }
    }
}

/// The views of a list of moves.
pub open spec fn move_views(v: Seq<Move>) -> Seq<MoveView> {
    v.map_values(|m: Move| m@)
}

pub struct PolicyContext<'a> {
    pub config: &'a Config,
    pub tiers: &'a TierMap,
    pub inventory: &'a Inventory,
    pub minfreespace: u64,
    /// Free bytes per branch, indexed like `tiers.branches`.
    pub free: Vec<u64>,
    pub now: i128,
}

impl<'a> PolicyContext<'a> {
    /// The free space is known of every branch, and every file is on one of them.
    pub open spec fn wf(self) -> bool {
        &&& self.free@.len() == self.tiers.branches@.len()
        &&& forall|i: int|
            0 <= i < self.inventory.files@.len() ==> (#[trigger] self.inventory.files@[i]).branch_idx
                < self.tiers.branches@.len()
    }
}

/// A policy plans the moves of a cycle.
pub trait TieringPolicy {
    /// The moves that the policy plans.
    spec fn planned(&self, ctx: PolicyContext) -> Seq<MoveView>;

    /// The name of the policy.
    spec fn called(&self) -> Seq<char>;

    fn name(&self) -> (r: &str)
        ensures
            r@ == self.called(),
    ;

    fn plan(&self, ctx: &PolicyContext) -> (r: Vec<Move>)
        requires
            ctx.wf(),
        ensures
            move_views(r@) == self.planned(*ctx),
    ;
}

/// The names of the access-time policy.
pub open spec fn names_access_time(name: Seq<char>) -> bool {
    name == "access_time"@ || name == "atime"@
}

/// Resolve a policy by name. New algorithms register here.
pub fn by_name(name: &str) -> (r: Option<Box<dyn TieringPolicy>>)
    ensures
        r is Some == names_access_time(name@),
        r matches Some(p) ==> {
            &&& p.called() == "access_time"@
            &&& forall|ctx: PolicyContext|
                #[trigger] p.planned(ctx) == access_time::projected(ctx).moves
        },
{
    let n = chars_of(name);
    if spells(n.as_slice(), "access_time") || spells(n.as_slice(), "atime") {
        Some(Box::new(access_time::AccessTimePolicy))
    } else {
        None
    }
}

/// The access-time policy goes by its own name and by a shorter one, and no other.
pub proof fn policy_has_two_names(name: Seq<char>)
    ensures
        names_access_time("access_time"@),
        names_access_time("atime"@),
        names_access_time(name) ==> name == "access_time"@ || name == "atime"@,
{
}

} // verus!
