//! Security settings, agent capabilities and the recall policy that decides
//! which cells an agent may see.
use vstd::prelude::*;
use crate::compression::bytes_to_vec;
use crate::errors::MgeError;

use crate::models::{MemoryCell, MemoryStatus, SensitivityLevel};


verus! {

#[derive(Clone, Copy, Debug, PartialEq, Eq, Structural)]
pub enum SecurityMode {
    Unencrypted,
    Encrypted,
}

pub open spec fn security_mode_name(m: SecurityMode) -> Seq<char> {
    match m {
        SecurityMode::Unencrypted => "unencrypted"@,
        SecurityMode::Encrypted => "encrypted"@,
    }
}

impl SecurityMode {
    /// The default mode: unencrypted.
    pub fn default_mode() -> (m: SecurityMode)
        ensures
            m == SecurityMode::Unencrypted,
    {
        SecurityMode::Unencrypted
    }

    pub fn as_str(&self) -> (s: &'static str)
        ensures
            s@ == security_mode_name(*self),
    {
        match self {
            SecurityMode::Unencrypted => "unencrypted",
            SecurityMode::Encrypted => "encrypted",
        }
    }

    pub fn is_encrypted(&self) -> (b: bool)
        ensures
            b == (*self == SecurityMode::Encrypted),
    {
        match self {
            SecurityMode::Encrypted => true,
            SecurityMode::Unencrypted => false,
        }
    }
}

pub struct SecurityConfig {
    pub mode: SecurityMode,
    pub payload_encryption: bool,
    pub session_unlock_required: bool,
    pub metadata_plaintext: bool,
    pub implementation_status: String,
}

/// The pipeline stage between encoded page bytes and stored bytes.
pub trait SecurityProvider {
    fn seal_page_bytes(&self, page_bytes: &[u8]) -> Result<Vec<u8>, MgeError>;

    fn open_page_bytes(&self, stored_bytes: &[u8]) -> Result<Vec<u8>, MgeError>;
}

/// Stores page bytes as they are.
#[derive(Clone, Copy, Debug, Default)]
pub struct NoSecurity;

impl SecurityProvider for NoSecurity {
    fn seal_page_bytes(&self, page_bytes: &[u8]) -> (r: Result<Vec<u8>, MgeError>)
        ensures
            r matches Ok(v) && v@ == page_bytes@,
    {
        Ok(bytes_to_vec(page_bytes))
    }

    fn open_page_bytes(&self, stored_bytes: &[u8]) -> (r: Result<Vec<u8>, MgeError>)
        ensures
            r matches Ok(v) && v@ == stored_bytes@,
    {
        Ok(bytes_to_vec(stored_bytes))
    }
}

#[derive(Clone, Copy, Debug, PartialEq, Eq, Structural)]
pub enum AgentCapability {
    IncludeDeprecated,
    IncludeRejected,
    ReadSecretReferences,
}

pub open spec fn capability_rank(c: AgentCapability) -> nat {
    match c {
        AgentCapability::IncludeDeprecated => 0,
        AgentCapability::IncludeRejected => 1,
        AgentCapability::ReadSecretReferences => 2,
    }
}

fn capability_rank_exec(c: AgentCapability) -> (r: u8)
    ensures
        r as nat == capability_rank(c),
{
    match c {
        AgentCapability::IncludeDeprecated => 0,
        AgentCapability::IncludeRejected => 1,
        AgentCapability::ReadSecretReferences => 2,
    }
}

/// A set of capabilities, held in capability order without repetition.
pub struct AgentCapabilities {
    pub capabilities: Vec<AgentCapability>,
}

impl AgentCapabilities {
    pub open spec fn set(&self) -> Set<AgentCapability> {
        self.capabilities@.to_set()
    }

    /// No capabilities.
    pub fn empty() -> (c: Self)
        ensures
            c.capabilities@ == Seq::<AgentCapability>::empty(),
            c.set() == Set::<AgentCapability>::empty(),
    {
        let c = AgentCapabilities { capabilities: Vec::new() };
        proof {
            assert(c.set() =~= Set::<AgentCapability>::empty());
        }
        c
    }

    /// The set of the given capabilities, in capability order.
    pub fn new(capabilities: Vec<AgentCapability>) -> (c: Self)
        ensures
            c.set() == capabilities@.to_set(),
            forall|i: int, j: int|
                0 <= i < j < c.capabilities@.len() ==> capability_rank(
                    #[trigger] c.capabilities@[i],
                ) < capability_rank(#[trigger] c.capabilities@[j]),
    {
        let mut out: Vec<AgentCapability> = Vec::new();
        let all = [
            AgentCapability::IncludeDeprecated,
            AgentCapability::IncludeRejected,
            AgentCapability::ReadSecretReferences,
        ];
        let mut k: usize = 0;
        while k < 3
            invariant
                k <= 3,
                all@ == seq![
                    AgentCapability::IncludeDeprecated,
                    AgentCapability::IncludeRejected,
                    AgentCapability::ReadSecretReferences,
                ],
                forall|x: AgentCapability| #[trigger]
                    out@.to_set().contains(x) <==> capability_rank(x) < k
                        && capabilities@.to_set().contains(x),
                forall|i: int, j: int|
                    0 <= i < j < out@.len() ==> capability_rank(#[trigger] out@[i]) < capability_rank(
                        #[trigger] out@[j],
                    ),
                forall|i: int| 0 <= i < out@.len() ==> capability_rank(#[trigger] out@[i]) < k,
            decreases 3 - k,
        {
            let c = all[k];
            let mut present = false;
            let mut i: usize = 0;
            while i < capabilities.len()
                invariant
                    i <= capabilities.len(),
                    present == capabilities@.take(i as int).contains(c),
                decreases capabilities.len() - i,
            {
                proof {
                    assert(capabilities@.take(i + 1) =~= capabilities@.take(i as int).push(
                        capabilities@[i as int],
                    ));
                }
                let ghost was = present;
                if capability_rank_exec(capabilities[i]) == capability_rank_exec(c) {
                    present = true;
                }
                proof {
                    let t = capabilities@.take(i + 1);
                    let u = capabilities@.take(i as int);
                    if capabilities@[i as int] == c {
                        assert(t[i as int] == c);
                    }
                    if t.contains(c) {
                        let m = choose|m: int| 0 <= m < t.len() && t[m] == c;
                        if m < i {
                            assert(u[m] == c);
                        }
                    }
                    if u.contains(c) {
                        let m = choose|m: int| 0 <= m < u.len() && u[m] == c;
                        assert(t[m] == c);
                    }
                }
                i += 1;
            }
            proof {
                assert(capabilities@.take(i as int) =~= capabilities@);
            }
            let ghost before = out@;
            if present {
                out.push(c);
            }
            proof {
                assert forall|x: AgentCapability| #[trigger] out@.to_set().contains(x) <==> capability_rank(
                    x,
                ) < k + 1 && capabilities@.to_set().contains(x) by {
                    if out@.to_set().contains(x) {
                        let m = choose|m: int| 0 <= m < out@.len() && out@[m] == x;
                        if m < before.len() {
                            assert(before.to_set().contains(x));
                        }
                    }
                    if capability_rank(x) < k + 1 && capabilities@.to_set().contains(x) {
                        if capability_rank(x) < k {
                            assert(before.to_set().contains(x));
                            let m = choose|m: int| 0 <= m < before.len() && before[m] == x;
                            assert(out@[m] == x);
                        } else {
                            assert(x == c);
                            assert(out@[before.len() as int] == x);
                        }
                    }
                }
            }
            k += 1;
        }
        proof {
            assert forall|x: AgentCapability| out@.to_set().contains(x) == capabilities@.to_set().contains(x) by {
                assert(capability_rank(x) < 3);
            }
            assert(out@.to_set() =~= capabilities@.to_set());
        }
        AgentCapabilities { capabilities: out }
    }

    pub fn contains(&self, capability: AgentCapability) -> (b: bool)
        ensures
            b == self.set().contains(capability),
    {
        let mut i: usize = 0;
        while i < self.capabilities.len()
            invariant
                i <= self.capabilities.len(),
                forall|k: int| 0 <= k < i ==> self.capabilities@[k] != capability,
            decreases self.capabilities.len() - i,
        {
            if capability_rank_exec(self.capabilities[i]) == capability_rank_exec(capability) {
                proof {
                    assert(self.capabilities@[i as int] == capability);
                    assert(self.capabilities@.to_set().contains(self.capabilities@[i as int]));
                }
                return true;
            }
            i += 1;
        }
        false
    }
}

/// Which normally hidden cells a recall may include.
#[derive(Clone, Copy, Debug, PartialEq, Eq, Structural)]
pub struct RecallPolicy {
    pub include_deprecated: bool,
    pub include_rejected: bool,
    pub allow_secret_references: bool,
}

/// Whether a policy lets a cell with this status and sensitivity through:
/// deprecated and superseded cells need `include_deprecated`, rejected cells
/// `include_rejected`, secret references `allow_secret_references`.
pub open spec fn policy_permits(p: RecallPolicy, status: MemoryStatus, sensitivity: SensitivityLevel) -> bool {
    &&& (p.include_deprecated || !(status == MemoryStatus::Deprecated || status
        == MemoryStatus::Superseded))
    &&& (p.include_rejected || status != MemoryStatus::Rejected)
    &&& (p.allow_secret_references || sensitivity != SensitivityLevel::SecretReference)
}

impl RecallPolicy {
    /// The default policy excludes deprecated, superseded, rejected and secret
    /// reference cells.
    pub fn restrictive() -> (p: RecallPolicy)
        ensures
            !p.include_deprecated && !p.include_rejected && !p.allow_secret_references,
    {
        RecallPolicy {
            include_deprecated: false,
            include_rejected: false,
            allow_secret_references: false,
        }
    }

    /// The policy that each capability grants.
    pub fn from_capabilities(capabilities: &AgentCapabilities) -> (p: RecallPolicy)
        ensures
            p.include_deprecated == capabilities.set().contains(AgentCapability::IncludeDeprecated),
            p.include_rejected == capabilities.set().contains(AgentCapability::IncludeRejected),
            p.allow_secret_references == capabilities.set().contains(
                AgentCapability::ReadSecretReferences,
            ),
    {
        RecallPolicy {
            include_deprecated: capabilities.contains(AgentCapability::IncludeDeprecated),
            include_rejected: capabilities.contains(AgentCapability::IncludeRejected),
            allow_secret_references: capabilities.contains(AgentCapability::ReadSecretReferences),
        }
    }

    pub fn permits(&self, status: MemoryStatus, sensitivity: SensitivityLevel) -> (b: bool)
        ensures
            b == policy_permits(*self, status, sensitivity),
    {
        if !self.include_deprecated && (status == MemoryStatus::Deprecated || status
            == MemoryStatus::Superseded) {
            return false;
        }
        if !self.include_rejected && status == MemoryStatus::Rejected {
            return false;
        }
        if !self.allow_secret_references && sensitivity == SensitivityLevel::SecretReference {
            return false;
        }
        true
    }

    pub fn permits_cell(&self, cell: &MemoryCell) -> (b: bool)
        ensures
            b == policy_permits(*self, cell.status, cell.sensitivity),
    {
        self.permits(cell.status, cell.sensitivity)
    }
}

/// A widening of a policy never hides a cell that the narrower policy shows.
pub proof fn law_policy_monotone(
    a: RecallPolicy,
    b: RecallPolicy,
    status: MemoryStatus,
    sensitivity: SensitivityLevel,
)
    requires
        a.include_deprecated ==> b.include_deprecated,
        a.include_rejected ==> b.include_rejected,
        a.allow_secret_references ==> b.allow_secret_references,
        policy_permits(a, status, sensitivity),
    ensures
        policy_permits(b, status, sensitivity),
{
}

pub struct AuditEvent {
    pub event_type: String,
    pub summary: String,
}

/// A sink for audit events.
pub trait AuditLogger {
    fn record(&self, event: &AuditEvent) -> Result<(), MgeError>;
}

/// Discards every event.
#[derive(Clone, Copy, Debug, Default)]
pub struct NoopAuditLogger;

impl AuditLogger for NoopAuditLogger {
    fn record(&self, event: &AuditEvent) -> (r: Result<(), MgeError>)
        ensures
            r is Ok,
    {
        Ok(())
    }
}


impl Default for SecurityMode {
    /// Unencrypted.
    fn default() -> (m: Self)
        ensures
            m == SecurityMode::Unencrypted,
    {
        SecurityMode::Unencrypted
    }
}

impl Default for RecallPolicy {
    /// The restrictive policy.
    fn default() -> (p: Self)
        ensures
            !p.include_deprecated && !p.include_rejected && !p.allow_secret_references,
    {
        RecallPolicy::restrictive()
    }
}

impl Default for AgentCapabilities {
    /// No capabilities.
    fn default() -> (c: Self)
        ensures
            c.set() == Set::<AgentCapability>::empty(),
    {
        AgentCapabilities::empty()
    }
}

} // verus!
