use vstd::prelude::*;

verus! {

/// The body the camera follows, or a request to stop following.
#[derive(Debug, Clone, Copy, PartialEq, Eq, Structural)]
pub enum CameraLockTarget {
    NoLock,
    Earth,
    Moon,
    Mars,
    Mercury,
    Venus,
    Clear,
}

impl Default for CameraLockTarget {
    fn default() -> (t: Self)
        ensures
            t == CameraLockTarget::NoLock,
    {
        CameraLockTarget::NoLock
    }
}

/// The lock after a request: `Clear` unlocks, `None` keeps the current lock,
/// any body locks onto it.
pub open spec fn spec_apply_lock_request(current: CameraLockTarget, requested: CameraLockTarget) -> CameraLockTarget {
    match requested {
        CameraLockTarget::Clear => CameraLockTarget::NoLock,
        CameraLockTarget::NoLock => current,
        _ => requested,
    }
}

impl CameraLockTarget {
    /// The lock that follows a request, and whether the camera must go back
    /// to its default offset from the body (it must on every new lock).
    pub fn apply_lock_request(self, requested: CameraLockTarget) -> (r: (CameraLockTarget, bool))
        ensures
            r.0 == spec_apply_lock_request(self, requested),
            r.1 == !(requested == CameraLockTarget::NoLock || requested == CameraLockTarget::Clear),
            requested == CameraLockTarget::Clear ==> r.0 == CameraLockTarget::NoLock,
            requested == CameraLockTarget::NoLock ==> r.0 == self,
            requested != CameraLockTarget::Clear && requested != CameraLockTarget::NoLock ==> r.0 == requested,
    {
        match requested {
            CameraLockTarget::Clear => (CameraLockTarget::NoLock, false),
            CameraLockTarget::NoLock => (self, false),
            _ => (requested, true),
        }
    }

    /// Whether the camera follows a body.
    pub fn is_locked(self) -> (r: bool)
        ensures
            r == (self != CameraLockTarget::NoLock),
    {
        self != CameraLockTarget::NoLock
    }

    /// Name of the body the camera follows; the Sun when it follows none.
    pub fn body_name(self) -> (name: &'static str)
        ensures
            self == CameraLockTarget::Earth ==> name@ == "Earth"@,
            self == CameraLockTarget::Moon ==> name@ == "Moon"@,
            self == CameraLockTarget::Mars ==> name@ == "Mars"@,
            self == CameraLockTarget::Mercury ==> name@ == "Mercury"@,
            self == CameraLockTarget::Venus ==> name@ == "Venus"@,
            (self == CameraLockTarget::NoLock || self == CameraLockTarget::Clear) ==> name@ == "Sun"@,
    {
        match self {
            CameraLockTarget::Earth => "Earth",
            CameraLockTarget::Moon => "Moon",
            CameraLockTarget::Mars => "Mars",
            CameraLockTarget::Mercury => "Mercury",
            CameraLockTarget::Venus => "Venus",
            CameraLockTarget::NoLock => "Sun",
            CameraLockTarget::Clear => "Sun",
        }
    }
}

/// A request naming a body locks onto that body, whatever the current lock
/// (the free camera included), and asks for the default offset.
pub proof fn lemma_body_request_locks(current: CameraLockTarget, body: CameraLockTarget)
    requires
        body == CameraLockTarget::Earth || body == CameraLockTarget::Moon || body == CameraLockTarget::Mars
            || body == CameraLockTarget::Mercury || body == CameraLockTarget::Venus,
    ensures
        spec_apply_lock_request(current, body) == body,
{
}

/// A `Clear` request always leaves the camera free; no request keeps the
/// current lock.
pub proof fn lemma_clear_and_no_request(current: CameraLockTarget)
    ensures
        spec_apply_lock_request(current, CameraLockTarget::Clear) == CameraLockTarget::NoLock,
        spec_apply_lock_request(current, CameraLockTarget::NoLock) == current,
{
}

/// A lock request never leaves the camera in the `Clear` state: starting
/// from a real lock state (a body or none), any request gives a real one.
pub proof fn lemma_lock_never_clear(current: CameraLockTarget, requested: CameraLockTarget)
    requires
        current != CameraLockTarget::Clear,
    ensures
        spec_apply_lock_request(current, requested) != CameraLockTarget::Clear,
{
}

/// Requests are idempotent: repeating a request changes nothing more.
pub proof fn lemma_lock_request_idempotent(current: CameraLockTarget, requested: CameraLockTarget)
    ensures
        spec_apply_lock_request(spec_apply_lock_request(current, requested), requested)
            == spec_apply_lock_request(current, requested),
{
}

/// A body the free-flying camera can follow, the Sun included.
#[derive(Debug, Clone, Copy, PartialEq, Eq, Structural)]
pub enum FollowTarget {
    Sun,
    Earth,
    Moon,
    Mars,
    Mercury,
    Venus,
}

impl FollowTarget {
    /// The body's name.
    pub fn name(self) -> (name: &'static str)
        ensures
            self == FollowTarget::Sun ==> name@ == "Sun"@,
            self == FollowTarget::Earth ==> name@ == "Earth"@,
            self == FollowTarget::Moon ==> name@ == "Moon"@,
            self == FollowTarget::Mars ==> name@ == "Mars"@,
            self == FollowTarget::Mercury ==> name@ == "Mercury"@,
            self == FollowTarget::Venus ==> name@ == "Venus"@,
    {
        match self {
            FollowTarget::Sun => "Sun",
            FollowTarget::Earth => "Earth",
            FollowTarget::Moon => "Moon",
            FollowTarget::Mars => "Mars",
            FollowTarget::Mercury => "Mercury",
            FollowTarget::Venus => "Venus",
        }
    }
}

} // verus!
