//! When the mesh of the view is asked for.

use vstd::prelude::*;

verus! {

/// Radius of the view in blocks.
pub const MESH_RADIUS: i64 = 192;

/// Radius of the columns that a new world starts with.
pub const INITIAL_COLUMNS_RADIUS: i64 = 64;

/// How far the player goes before the mesh is asked for again.
pub const MESH_REBUILD_DISTANCE: i64 = 32;

/// Whether two columns are far apart along some axis.
pub open spec fn is_far(a: (i64, i64), b: (i64, i64)) -> bool {
    ||| a.0 - b.0 >= MESH_REBUILD_DISTANCE
    ||| b.0 - a.0 >= MESH_REBUILD_DISTANCE
    ||| a.1 - b.1 >= MESH_REBUILD_DISTANCE
    ||| b.1 - a.1 >= MESH_REBUILD_DISTANCE
}

fn far_enough(a: (i64, i64), b: (i64, i64)) -> (r: bool)
    ensures
        r == is_far(a, b),
{
    let dx: i128 = a.0 as i128 - b.0 as i128;
    let dz: i128 = a.1 as i128 - b.1 as i128;
    dx >= 32 || -dx >= 32 || dz >= 32 || -dz >= 32
}

/// The mesh that is shown, the one that is awaited, and whether blocks have changed.
pub struct MeshView {
    /// The centre of the mesh that is shown.
    pub center: Option<(i64, i64)>,
    /// The centre of the mesh that is awaited.
    pub requested: Option<(i64, i64)>,
    /// Whether blocks have changed since the last request.
    pub needs_rebuild: bool,
}

impl MeshView {
    /// The view of a world that is entered: nothing is shown yet.
    pub fn entered() -> (r: MeshView)
        ensures
            r == (MeshView { center: None, requested: None, needs_rebuild: true }),
    {
        MeshView { center: None, requested: None, needs_rebuild: true }
    }

    /// The world is left: nothing is awaited.
    pub fn leave(&mut self)
        ensures
            *final(self) == (MeshView {
                center: old(self).center,
                requested: None,
                needs_rebuild: false,
            }),
    {
        self.requested = None;
        self.needs_rebuild = false;
    }

    /// The player has changed a block: what is awaited is out of date.
    pub fn block_changed(&mut self)
        ensures
            *final(self) == (MeshView {
                center: old(self).center,
                requested: None,
                needs_rebuild: true,
            }),
    {
        self.requested = None;
        self.needs_rebuild = true;
    }

    /// Blocks have fallen.
    pub fn world_changed(&mut self)
        ensures
            *final(self) == (MeshView { needs_rebuild: true, ..*old(self) }),
    {
        self.needs_rebuild = true;
    }

    /// A mesh has come.
    pub fn arrived(&mut self, center: (i64, i64))
        ensures
            *final(self) == (MeshView {
                center: Some(center),
                requested: None,
                needs_rebuild: old(self).needs_rebuild,
            }),
    {
        self.center = Some(center);
        self.requested = None;
    }

    /// A mesh has been asked for.
    pub fn asked(&mut self, center: (i64, i64))
        ensures
            *final(self) == (MeshView {
                center: old(self).center,
                requested: Some(center),
                needs_rebuild: false,
            }),
    {
        self.requested = Some(center);
        self.needs_rebuild = false;
    }

    /// Whether a mesh is wanted for a place: after a change of blocks, unless one is
    /// awaited; else if nothing near is shown or awaited.
    pub open spec fn wants(&self, center: (i64, i64)) -> bool {
        if self.needs_rebuild {
            self.requested is None
        } else {
            &&& self.center is None || is_far(self.center->0, center)
            &&& self.requested is None || is_far(self.requested->0, center)
        }
    }

    /// Whether a mesh is wanted for a place.
    pub fn needs_request(&self, center: (i64, i64)) -> (r: bool)
        ensures
            r == self.wants(center),
    {
        if self.needs_rebuild {
            return self.requested.is_none();
        }
        match (self.center, self.requested) {
            (None, None) => true,
            (None, Some(requested)) => far_enough(requested, center),
            (Some(shown), None) => far_enough(shown, center),
            (Some(shown), Some(requested)) => {
                far_enough(shown, center) && far_enough(requested, center)
            },
        }
    }
}

/// A mesh is asked for once: while it is awaited and the player stays near, no other
/// is wanted, unless blocks change.
pub proof fn requests_settle(view: MeshView, center: (i64, i64), near: (i64, i64))
    requires
        !is_far(center, near),
    ensures
        !(MeshView { center: view.center, requested: Some(center), needs_rebuild: false }).wants(
            near,
        ),
        !(MeshView { center: Some(center), requested: None, needs_rebuild: false }).wants(near),
        (MeshView { center: view.center, requested: None, needs_rebuild: true }).wants(near),
{
}

/// A view is asked for as soon as the player is far from what is shown, along either axis
/// and in either direction, and when blocks have changed; near what is shown it is not.
pub proof fn far_views_are_asked_for(shown: (i64, i64), at: (i64, i64))
    ensures
        ({
            let far = at.0 - shown.0 >= MESH_REBUILD_DISTANCE || shown.0 - at.0
                >= MESH_REBUILD_DISTANCE || at.1 - shown.1 >= MESH_REBUILD_DISTANCE || shown.1
                - at.1 >= MESH_REBUILD_DISTANCE;
            let view = MeshView { center: Some(shown), requested: None, needs_rebuild: false };
            &&& view.wants(at) <==> far
            &&& (MeshView { center: None, requested: None, needs_rebuild: false }).wants(at)
            &&& (MeshView { needs_rebuild: true, ..view }).wants(at)
            &&& !(MeshView { center: Some(shown), requested: Some(at), needs_rebuild: true }).wants(
                at,
            )
            &&& !view.wants(shown)
            &&& (MeshView { center: None, requested: Some(shown), needs_rebuild: false }).wants(at)
                <==> far
        }),
{
}

} // verus!
