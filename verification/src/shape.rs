use vstd::prelude::*;

verus! {

/// Number of vertices in the latitude/longitude grid of a sphere.
pub open spec fn grid_vertex_count(num_lats: nat, num_longs: nat) -> nat {
    (num_lats + 1) * (num_longs + 1)
}

/// Corner `k` (0..6) of grid cell (`lat`, `lon`): the cell's quad is split
/// into the triangles (current, next, current + 1) and (current + 1, next,
/// next + 1), where `current` is the cell's corner in row `lat` and `next`
/// the one below it in row `lat + 1`.
pub open spec fn cell_corner(lat: nat, lon: nat, k: nat, num_longs: nat) -> nat {
    let current = lat * (num_longs + 1) + lon;
    let next = current + num_longs + 1;
    if k == 0 {
        current
    } else if k == 1 {
        next
    } else if k == 2 {
        current + 1
    } else if k == 3 {
        current + 1
    } else if k == 4 {
        next
    } else {
        next + 1
    }
}

/// Position of corner `k` of cell (`lat`, `lon`) in the triangle list.
pub open spec fn cell_slot(lat: nat, lon: nat, k: nat, num_longs: nat) -> nat {
    6 * (lat * num_longs + lon) + k
}

/// The triangle list of a sphere's vertex grid, cell by cell, row by row.
pub fn sphere_grid_indices(num_lats: usize, num_longs: usize) -> (idx: Vec<usize>)
    requires
        grid_vertex_count(num_lats as nat, num_longs as nat) <= usize::MAX,
        6 * num_lats * num_longs <= usize::MAX,
    ensures
        idx@.len() == 6 * num_lats * num_longs,
        forall|i: int| 0 <= i < idx@.len() ==> idx@[i] < grid_vertex_count(num_lats as nat, num_longs as nat),
        forall|lat: nat, lon: nat, k: nat|
            lat < num_lats && lon < num_longs && k < 6 ==> idx@[cell_slot(lat, lon, k, num_longs as nat) as int]
                == #[trigger] cell_corner(lat, lon, k, num_longs as nat),
{
    let mut idx: Vec<usize> = Vec::new();
    let ghost nl = num_longs as nat;
    let mut lat: usize = 0;
    while lat < num_lats
        invariant
            lat <= num_lats,
            nl == num_longs,
            grid_vertex_count(num_lats as nat, nl) <= usize::MAX,
            6 * num_lats * num_longs <= usize::MAX,
            idx@.len() == 6 * lat * num_longs,
            forall|i: int| 0 <= i < idx@.len() ==> idx@[i] < grid_vertex_count(num_lats as nat, nl),
            forall|a: nat, b: nat, k: nat|
                a < lat && b < num_longs && k < 6 ==> idx@[cell_slot(a, b, k, nl) as int] == #[trigger] cell_corner(
                    a,
                    b,
                    k,
                    nl,
                ),
        decreases num_lats - lat,
    {
        let mut lon: usize = 0;
        assert(6 * lat * num_longs == 6 * (lat * num_longs + 0)) by (nonlinear_arith);
        while lon < num_longs
            invariant
                lat < num_lats,
                lon <= num_longs,
                nl == num_longs,
                grid_vertex_count(num_lats as nat, nl) <= usize::MAX,
                6 * num_lats * num_longs <= usize::MAX,
                idx@.len() == 6 * (lat * num_longs + lon),
                forall|i: int| 0 <= i < idx@.len() ==> idx@[i] < grid_vertex_count(num_lats as nat, nl),
                forall|a: nat, b: nat, k: nat|
                    (a < lat && b < num_longs || a == lat && b < lon) && k < 6 ==> idx@[cell_slot(a, b, k, nl) as int]
                        == #[trigger] cell_corner(a, b, k, nl),
            decreases num_longs - lon,
        {
            proof {
                assert((lat + 1) * (num_longs + 1) <= (num_lats + 1) * (num_longs + 1)) by (nonlinear_arith)
                    requires
                        lat < num_lats,
                ;
                assert(lat * (num_longs + 1) + lon + num_longs + 2 < (num_lats + 1) * (num_longs + 1)) by (nonlinear_arith)
                    requires
                        lat < num_lats,
                        lon < num_longs,
                ;
                assert(6 * (lat * num_longs + lon) + 6 <= 6 * num_lats * num_longs) by (nonlinear_arith)
                    requires
                        lat < num_lats,
                        lon < num_longs,
                ;
            }
            let current = lat * (num_longs + 1) + lon;
            let next = current + num_longs + 1;
            let ghost base = idx@;
            idx.push(current);
            idx.push(next);
            idx.push(current + 1);
            idx.push(current + 1);
            idx.push(next);
            idx.push(next + 1);
            proof {
                assert forall|i: int| 0 <= i < idx@.len() implies idx@[i] < grid_vertex_count(num_lats as nat, nl) by {
                    if i < base.len() {
                        assert(idx@[i] == base[i]);
                    }
                }
                assert forall|a: nat, b: nat, k: nat|
                    (a < lat && b < num_longs || a == lat && b < lon + 1) && k < 6 implies idx@[cell_slot(
                        a,
                        b,
                        k,
                        nl,
                    ) as int] == #[trigger] cell_corner(a, b, k, nl) by {
                    if a == lat && b == lon {
                        assert(cell_slot(a, b, k, nl) == base.len() + k);
                    } else {
                        assert(cell_slot(a, b, k, nl) < base.len()) by (nonlinear_arith)
                            requires
                                (a < lat && b < nl || a == lat && b < lon),
                                k < 6,
                                base.len() == 6 * (lat * nl + lon),
                                cell_slot(a, b, k, nl) == 6 * (a * nl + b) + k,
                        ;
                        assert(idx@[cell_slot(a, b, k, nl) as int] == base[cell_slot(a, b, k, nl) as int]);
                    }
                }
            }
            lon += 1;
        }
        assert(6 * (lat * num_longs + num_longs) == 6 * (lat + 1) * num_longs) by (nonlinear_arith);
        lat += 1;
    }
    idx
}

/// Every index of the triangle list names a grid vertex.
pub proof fn lemma_cell_corner_in_grid(lat: nat, lon: nat, k: nat, num_lats: nat, num_longs: nat)
    requires
        lat < num_lats,
        lon < num_longs,
        k < 6,
    ensures
        cell_corner(lat, lon, k, num_longs) < grid_vertex_count(num_lats, num_longs),
{
    assert((lat + 1) * (num_longs + 1) + lon + 1 < (num_lats + 1) * (num_longs + 1)) by (nonlinear_arith)
        requires
            lat < num_lats,
            lon < num_longs,
    ;
    assert(lat * (num_longs + 1) + num_longs + 1 == (lat + 1) * (num_longs + 1)) by (nonlinear_arith);
}

/// The two triangles of grid cell (`lat`, `lon`): with `a` the cell's corner
/// in row `lat` and `c = a + num_longs + 1` the corner below it, they are
/// (a, c, a + 1) and (a + 1, c, c + 1), so they cover the cell's four corners
/// and share the diagonal from a + 1 to c.
pub proof fn lemma_cell_triangles(lat: nat, lon: nat, num_longs: nat)
    ensures
        ({
            let a = lat * (num_longs + 1) + lon;
            let c = a + num_longs + 1;
            &&& cell_corner(lat, lon, 0, num_longs) == a
            &&& cell_corner(lat, lon, 1, num_longs) == c
            &&& cell_corner(lat, lon, 2, num_longs) == a + 1
            &&& cell_corner(lat, lon, 3, num_longs) == a + 1
            &&& cell_corner(lat, lon, 4, num_longs) == c
            &&& cell_corner(lat, lon, 5, num_longs) == c + 1
        }),
{
}

} // verus!
